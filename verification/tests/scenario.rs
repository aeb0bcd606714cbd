use club::club::{ClubRequest, ClubUpdate};
use club::envelope::{encode_request, AppRequest};
use club::router::{AppState, AppUpdate};

fn id(name: &str) -> Vec<u8> {
    name.as_bytes().to_vec()
}

#[test]
fn scenario_join_snapshot_audio_leave() {
    let mut state = AppState::new();

    // alice joins.
    let join = encode_request(&AppRequest::Club(ClubRequest::Participant(false)));
    assert_eq!(
        String::from_utf8(join.clone()).unwrap(),
        "{\"Club\":{\"Participant\":false}}"
    );
    let out = state.dispatch(id("alice"), &join).unwrap();
    match out.update {
        AppUpdate::Club(ClubUpdate::Participant(who, leaving)) => {
            assert_eq!(who, id("alice"));
            assert!(!leaving);
        }
        _ => panic!("expected a participant update"),
    }
    assert!(out.recipients.is_empty());
    assert_eq!(state.service.club.participants.members(), vec![id("alice")]);

    // bob subscribes and receives the snapshot {"alice"}.
    let sub = state.handle_subscribe(id("bob"));
    match sub.snapshot {
        AppUpdate::Club(ClubUpdate::Participants(snap)) => {
            assert_eq!(snap.members(), vec![id("alice")]);
        }
        _ => panic!("expected a snapshot update"),
    }

    // alice sends audio; bob observes it tagged with the originator.
    let audio = encode_request(&AppRequest::Club(ClubRequest::Audio(vec![1, 2, 3])));
    assert_eq!(
        String::from_utf8(audio.clone()).unwrap(),
        "{\"Club\":{\"Audio\":[1,2,3]}}"
    );
    let out = state.dispatch(id("alice"), &audio).unwrap();
    match out.update {
        AppUpdate::Club(ClubUpdate::Audio(bytes, originators)) => {
            assert_eq!(bytes, vec![1, 2, 3]);
            assert_eq!(originators, vec![id("alice")]);
        }
        _ => panic!("expected an audio update"),
    }
    assert_eq!(out.recipients, vec![id("bob")]);
    assert_eq!(state.service.club.participants.members(), vec![id("alice")]);

    // alice leaves; the room empties and bob observes the delta.
    let leave = encode_request(&AppRequest::Club(ClubRequest::Participant(true)));
    let out = state.dispatch(id("alice"), &leave).unwrap();
    match out.update {
        AppUpdate::Club(ClubUpdate::Participant(who, leaving)) => {
            assert_eq!(who, id("alice"));
            assert!(leaving);
        }
        _ => panic!("expected a participant update"),
    }
    assert_eq!(out.recipients, vec![id("bob")]);
    assert!(state.service.club.participants.members().is_empty());
}

#[test]
fn leave_when_absent_changes_nothing() {
    let mut state = AppState::new();
    let join = encode_request(&AppRequest::Club(ClubRequest::Participant(false)));
    state.dispatch(id("alice"), &join).unwrap();

    let leave = encode_request(&AppRequest::Club(ClubRequest::Participant(true)));
    let out = state.dispatch(id("carol"), &leave).unwrap();
    match out.update {
        AppUpdate::Club(ClubUpdate::Participant(who, leaving)) => {
            assert_eq!(who, id("carol"));
            assert!(leaving);
        }
        _ => panic!("expected a participant update"),
    }
    assert_eq!(state.service.club.participants.members(), vec![id("alice")]);
}

#[test]
fn last_presence_request_per_caller_wins() {
    let mut state = AppState::new();
    let join = encode_request(&AppRequest::Club(ClubRequest::Participant(false)));
    let leave = encode_request(&AppRequest::Club(ClubRequest::Participant(true)));

    state.dispatch(id("alice"), &join).unwrap();
    state.dispatch(id("bob"), &join).unwrap();
    state.dispatch(id("carol"), &join).unwrap();
    state.dispatch(id("bob"), &leave).unwrap();
    state.dispatch(id("carol"), &leave).unwrap();
    state.dispatch(id("carol"), &join).unwrap();

    let set = state.service.club.participants;
    assert!(set.contains(&id("alice")));
    assert!(!set.contains(&id("bob")));
    assert!(set.contains(&id("carol")));
    assert_eq!(set.members().len(), 2);
}

#[test]
fn duplicate_join_keeps_one_entry() {
    let mut state = AppState::new();
    let join = encode_request(&AppRequest::Club(ClubRequest::Participant(false)));
    state.dispatch(id("alice"), &join).unwrap();
    state.dispatch(id("alice"), &join).unwrap();
    assert_eq!(state.service.club.participants.members(), vec![id("alice")]);
}

#[test]
fn subscribers_accumulate_and_broadcasts_reach_all() {
    let mut state = AppState::new();
    state.handle_subscribe(id("bob"));
    state.handle_subscribe(id("carol"));
    state.handle_subscribe(id("bob"));

    let join = encode_request(&AppRequest::Club(ClubRequest::Participant(false)));
    let out = state.dispatch(id("alice"), &join).unwrap();
    assert_eq!(out.recipients, vec![id("bob"), id("carol")]);
}
