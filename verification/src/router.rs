//! The router. It owns one instance of every hosted service, decodes the
//! tagged request envelope, routes to the matching service, and after any
//! mutation hands back the persistence record to flush. Sends are returned
//! as data: the one update to fan out and the subscriber list as it stood at
//! call time. The host loop performs them; a failed send or write never
//! touches the state here.

use vstd::prelude::*;

use crate::club::ClubServiceState;
use crate::club::ClubUpdate;
use crate::envelope::AppRequest;
use crate::envelope::AppRequestView;
use crate::envelope::ClubRequestView;
use crate::envelope::decode_request;
use crate::envelope::parse_request;
use crate::participants::ParticipantSet;
use crate::participants::ids_view;
use crate::persist::decode_state;
use crate::persist::encode_state;
use crate::persist::parse_state;
use crate::persist::state_bytes;

verus! {

/// An update envelope: which service an update originates from, and its
/// payload.
pub enum AppUpdate {
    Club(ClubUpdate),
}

/// The one service aggregate the router owns: one instance of each hosted
/// service variant.
pub struct AppService {
    pub club: ClubServiceState,
}

/// What one participant-set step does to the set: a leave removes the
/// caller, a join inserts it.
pub open spec fn presence_step(ps: Set<Seq<u8>>, caller: Seq<u8>, leaving: bool) -> Set<Seq<u8>> {
    if leaving {
        ps.remove(caller)
    } else {
        ps.insert(caller)
    }
}

/// The participant set after a request from `caller` is applied to `ps`:
/// presence requests step the set, audio passes through without touching it.
pub open spec fn participants_after(ps: Set<Seq<u8>>, caller: Seq<u8>, req: AppRequestView) -> Set<
    Seq<u8>,
> {
    match req {
        AppRequestView::Club(ClubRequestView::Participant(leaving)) => presence_step(
            ps,
            caller,
            leaving,
        ),
        AppRequestView::Club(ClubRequestView::Audio(_)) => ps,
    }
}

/// Whether `upd` is the one update a request from `caller` broadcasts.
pub open spec fn is_update_for(upd: AppUpdate, caller: Seq<u8>, req: AppRequestView) -> bool {
    match req {
        AppRequestView::Club(ClubRequestView::Participant(leaving)) => upd matches AppUpdate::Club(
            ClubUpdate::Participant(who, l),
        ) && who@ == caller && l == leaving,
        AppRequestView::Club(ClubRequestView::Audio(payload)) => upd matches AppUpdate::Club(
            ClubUpdate::Audio(a, originators),
        ) && a@ == payload && originators@.len() == 1 && originators@[0]@ == caller,
    }
}

impl AppService {
    /// Whether every hosted service satisfies its invariant.
    pub open spec fn wf(&self) -> bool {
        self.club.wf()
    }

    /// The zero-value aggregate: every service fresh.
    pub fn new() -> (r: Self)
        ensures
            r.club.participants@ == Set::<Seq<u8>>::empty(),
            r.wf(),
    {
        AppService { club: ClubServiceState::new() }
    }

    /// Routes one decoded request to the matching service and returns the
    /// one update to broadcast.
    pub fn handle_request(&mut self, from: Vec<u8>, req: AppRequest) -> (upd: AppUpdate)
        requires
            old(self).wf(),
        ensures
            final(self).wf(),
            final(self).club.participants@ == participants_after(
                old(self).club.participants@,
                from@,
                req@,
            ),
            is_update_for(upd, from@, req@),
    {
        match req {
            AppRequest::Club(club_request) => {
                AppUpdate::Club(self.club.handle_request(from, club_request))
            },
        }
    }

    /// The snapshot updates a new subscriber receives, one per hosted
    /// service: for the club service, the full participant set as it stands.
    pub fn handle_subscribe(&self) -> (upd: AppUpdate)
        ensures
            upd matches AppUpdate::Club(ClubUpdate::Participants(snap)) && snap@
                == self.club.participants@,
    {
        AppUpdate::Club(self.club.handle_subscribe())
    }

    /// The persistence record for the aggregate, flushed after every
    /// mutation.
    pub fn save(&self) -> (record: Vec<u8>)
        ensures
            record@ == state_bytes(self.club.participants.seq_view()),
    {
        encode_state(&self.club)
    }

    /// Recovers the aggregate from a stored record. A missing or corrupt
    /// record falls back to the zero-value state rather than failing the
    /// process: one bad record must not block the service from starting.
    pub fn load(record: Option<&Vec<u8>>) -> (r: Self)
        ensures
            r.wf(),
            match record {
                Some(bytes) => match parse_state(bytes@) {
                    Some(parts) => r.club.participants@ == parts.to_set(),
                    None => r.club.participants@ == Set::<Seq<u8>>::empty(),
                },
                None => r.club.participants@ == Set::<Seq<u8>>::empty(),
            },
    {
        match record {
            Some(bytes) => match decode_state(bytes) {
                Some(club) => AppService { club },
                None => AppService::new(),
            },
            None => AppService::new(),
        }
    }
}

/// Why a request was rejected: the envelope failed to parse or tag-match.
/// This is the only error the router reports; service-level trouble never
/// escapes as a crash.
#[derive(Debug)]
pub enum DispatchError {
    MalformedRequest,
}

/// The actions a handled request asks of the host: fan `update` out to
/// `recipients` (the subscribers as of the call), then flush `record`.
pub struct DispatchOutcome {
    pub update: AppUpdate,
    pub recipients: Vec<Vec<u8>>,
    pub record: Vec<u8>,
}

/// The actions a subscribe event asks of the host: send `snapshot` to the
/// new subscriber alone, then flush `record`.
pub struct SubscribeOutcome {
    pub snapshot: AppUpdate,
    pub record: Vec<u8>,
}

/// The whole process state: the service aggregate and the subscriber
/// directory.
pub struct AppState {
    pub service: AppService,
    pub subscribers: ParticipantSet,
}

impl AppState {
    /// Whether the state satisfies its invariants.
    pub open spec fn wf(&self) -> bool {
        self.service.wf() && self.subscribers.wf()
    }

    /// A fresh process state: no participants, no subscribers.
    pub fn new() -> (r: Self)
        ensures
            r.wf(),
            r.service.club.participants@ == Set::<Seq<u8>>::empty(),
            r.subscribers@ == Set::<Seq<u8>>::empty(),
    {
        AppState { service: AppService::new(), subscribers: ParticipantSet::new() }
    }

    /// Handles one inbound request: decodes the envelope, applies it, and
    /// returns the actions for the host. Malformed bytes are rejected with
    /// no state change at all; a well-formed request yields exactly one
    /// update for the subscribers present at call time, and the record to
    /// flush matches the mutated state.
    pub fn dispatch(&mut self, caller: Vec<u8>, raw: &Vec<u8>) -> (r: Result<
        DispatchOutcome,
        DispatchError,
    >)
        requires
            old(self).wf(),
        ensures
            final(self).wf(),
            final(self).subscribers == old(self).subscribers,
            match r {
                Ok(out) => {
                    &&& parse_request(raw@) matches Some(req) && {
                        &&& final(self).service.club.participants@ == participants_after(
                            old(self).service.club.participants@,
                            caller@,
                            req,
                        )
                        &&& is_update_for(out.update, caller@, req)
                    }
                    &&& ids_view(out.recipients@) == old(self).subscribers.seq_view()
                    &&& out.record@ == state_bytes(final(self).service.club.participants.seq_view())
                },
                Err(e) => {
                    &&& e is MalformedRequest
                    &&& parse_request(raw@) is None
                    &&& *final(self) == *old(self)
                },
            },
            (r is Err) <==> (parse_request(raw@) is None),
    {
        match decode_request(raw) {
            None => Err(DispatchError::MalformedRequest),
            Some(req) => {
                let update = self.service.handle_request(caller, req);
                let recipients = self.subscribers.members();
                let record = self.service.save();
                Ok(DispatchOutcome { update, recipients, record })
            },
        }
    }

    /// Handles one subscribe event: adds the subscriber to the directory of
    /// every hosted service and returns the directed snapshot it must
    /// receive before any later broadcast, with the record to flush.
    pub fn handle_subscribe(&mut self, subscriber: Vec<u8>) -> (out: SubscribeOutcome)
        requires
            old(self).wf(),
        ensures
            final(self).wf(),
            final(self).service == old(self).service,
            final(self).subscribers@ == old(self).subscribers@.insert(subscriber@),
            out.snapshot matches AppUpdate::Club(ClubUpdate::Participants(snap)) && snap@ == old(
                self,
            ).service.club.participants@,
            out.record@ == state_bytes(final(self).service.club.participants.seq_view()),
    {
        let snapshot = self.service.handle_subscribe();
        self.subscribers.insert(subscriber);
        let record = self.service.save();
        SubscribeOutcome { snapshot, record }
    }
}

} // verus!
