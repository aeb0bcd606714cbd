use club::club::ClubRequest;
use club::envelope::{decode_request, encode_request, AppRequest};
use club::persist::{decode_state, encode_state};
use club::router::{AppService, AppState};

fn id(name: &str) -> Vec<u8> {
    name.as_bytes().to_vec()
}

fn assert_round_trips(req: AppRequest, expected_text: &str) {
    let bytes = encode_request(&req);
    assert_eq!(String::from_utf8(bytes.clone()).unwrap(), expected_text);
    match (decode_request(&bytes), req) {
        (Some(AppRequest::Club(got)), AppRequest::Club(sent)) => match (got, sent) {
            (ClubRequest::Participant(a), ClubRequest::Participant(b)) => assert_eq!(a, b),
            (ClubRequest::Audio(a), ClubRequest::Audio(b)) => assert_eq!(a, b),
            _ => panic!("decoded a different variant"),
        },
        _ => panic!("decoding failed"),
    }
}

#[test]
fn requests_round_trip_through_their_spelling() {
    assert_round_trips(
        AppRequest::Club(ClubRequest::Participant(true)),
        "{\"Club\":{\"Participant\":true}}",
    );
    assert_round_trips(
        AppRequest::Club(ClubRequest::Participant(false)),
        "{\"Club\":{\"Participant\":false}}",
    );
    assert_round_trips(AppRequest::Club(ClubRequest::Audio(vec![])), "{\"Club\":{\"Audio\":[]}}");
    assert_round_trips(
        AppRequest::Club(ClubRequest::Audio(vec![0])),
        "{\"Club\":{\"Audio\":[0]}}",
    );
    assert_round_trips(
        AppRequest::Club(ClubRequest::Audio(vec![0, 9, 10, 99, 100, 255])),
        "{\"Club\":{\"Audio\":[0,9,10,99,100,255]}}",
    );
}

#[test]
fn malformed_envelopes_are_rejected() {
    let cases: Vec<&str> = vec![
        "",
        "{",
        "{}",
        "{\"Club\":{}}",
        "{\"Chat\":{\"Participant\":true}}",
        "{\"Club\":{\"Participant\":tru}}",
        "{\"Club\":{\"Participant\":true}} ",
        "{ \"Club\":{\"Participant\":true}}",
        "{\"Club\":{\"Participant\":true}",
        "{\"Club\":{\"Audio\":[01]}}",
        "{\"Club\":{\"Audio\":[256]}}",
        "{\"Club\":{\"Audio\":[1,]}}",
        "{\"Club\":{\"Audio\":[,1]}}",
        "{\"Club\":{\"Audio\":[1 ,2]}}",
        "{\"Club\":{\"Audio\":}}",
        "{\"Club\":{\"Audio\":[1,2,3]}}}",
    ];
    for text in cases {
        let bytes = text.as_bytes().to_vec();
        assert!(decode_request(&bytes).is_none(), "accepted {:?}", text);
    }
}

#[test]
fn malformed_envelope_mutates_no_state() {
    let mut state = AppState::new();
    let join = encode_request(&AppRequest::Club(ClubRequest::Participant(false)));
    state.dispatch(id("alice"), &join).unwrap();
    state.handle_subscribe(id("bob"));

    let garbage = "{\"Club\":{\"Participant\":maybe}}".as_bytes().to_vec();
    assert!(state.dispatch(id("mallory"), &garbage).is_err());
    assert_eq!(state.service.club.participants.members(), vec![id("alice")]);
    assert!(state.subscribers.contains(&id("bob")));
    assert_eq!(state.subscribers.members().len(), 1);
}

#[test]
fn saved_state_loads_back_equal() {
    let mut state = AppState::new();
    let join = encode_request(&AppRequest::Club(ClubRequest::Participant(false)));
    state.dispatch(id("alice"), &join).unwrap();
    state.dispatch(id("bob"), &join).unwrap();
    state.dispatch(id("carol"), &join).unwrap();
    let leave = encode_request(&AppRequest::Club(ClubRequest::Participant(true)));
    state.dispatch(id("bob"), &leave).unwrap();

    let record = state.service.save();
    let reloaded = AppService::load(Some(&record));
    assert!(reloaded.club.participants.contains(&id("alice")));
    assert!(!reloaded.club.participants.contains(&id("bob")));
    assert!(reloaded.club.participants.contains(&id("carol")));
    assert_eq!(reloaded.club.participants.members().len(), 2);
}

#[test]
fn empty_state_round_trips() {
    let state = AppService::new();
    let record = encode_state(&state.club);
    let reloaded = decode_state(&record).unwrap();
    assert!(reloaded.participants.members().is_empty());
}

#[test]
fn missing_or_corrupt_record_loads_fresh() {
    let fresh = AppService::load(None);
    assert!(fresh.club.participants.members().is_empty());

    let corrupt = vec![7u8, 7, 7];
    let fallback = AppService::load(Some(&corrupt));
    assert!(fallback.club.participants.members().is_empty());

    let truncated = vec![2u8, 0, 0, 0, 0, 0, 0, 0, 5, 0];
    let fallback = AppService::load(Some(&truncated));
    assert!(fallback.club.participants.members().is_empty());
}

#[test]
fn dispatch_outcome_record_matches_saved_state() {
    let mut state = AppState::new();
    let join = encode_request(&AppRequest::Club(ClubRequest::Participant(false)));
    let out = state.dispatch(id("alice"), &join).unwrap();
    assert_eq!(out.record, state.service.save());
    let reloaded = AppService::load(Some(&out.record));
    assert_eq!(reloaded.club.participants.members(), vec![id("alice")]);
}

#[test]
fn record_bytes_are_count_then_length_prefixed_entries() {
    let mut state = AppState::new();
    let join = encode_request(&AppRequest::Club(ClubRequest::Participant(false)));
    state.dispatch(id("ab"), &join).unwrap();

    let record = state.service.save();
    let mut expected: Vec<u8> = vec![1, 0, 0, 0, 0, 0, 0, 0];
    expected.extend_from_slice(&[2, 0, 0, 0, 0, 0, 0, 0]);
    expected.extend_from_slice(b"ab");
    assert_eq!(record, expected);
}

#[test]
fn subscribe_outcome_record_matches_saved_state() {
    let mut state = AppState::new();
    let join = encode_request(&AppRequest::Club(ClubRequest::Participant(false)));
    state.dispatch(id("alice"), &join).unwrap();
    let out = state.handle_subscribe(id("bob"));
    assert_eq!(out.record, state.service.save());
}
