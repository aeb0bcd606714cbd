//! The club service: a broadcast room. Its state is the set of participants;
//! callers join or leave with a presence request, and audio payloads pass
//! through untouched, tagged with their originator. Every handled request
//! yields exactly one update for the subscribers of the service.

use vstd::prelude::*;

use crate::participants::ParticipantSet;
use crate::participants::copy_bytes;

verus! {

/// A request addressed to the club service. The caller identity is not part
/// of the payload; the host runtime supplies it separately.
pub enum ClubRequest {
    /// Presence change: `true` means the caller leaves, `false` that it joins.
    Participant(bool),
    /// An opaque audio payload to fan out to the subscribers.
    Audio(Vec<u8>),
}

/// An update the club service hands to its subscribers.
pub enum ClubUpdate {
    /// A presence delta: who changed, and `true` if they left.
    Participant(Vec<u8>, bool),
    /// A full snapshot of the participant set, sent to a new subscriber.
    Participants(ParticipantSet),
    /// An audio payload and the identities it originates from.
    Audio(Vec<u8>, Vec<Vec<u8>>),
}

/// The authoritative state of the club service.
pub struct ClubServiceState {
    pub participants: ParticipantSet,
}

impl ClubServiceState {
    /// Whether the state satisfies its internal invariant.
    pub open spec fn wf(&self) -> bool {
        self.participants.wf()
    }

    /// The fresh zero-value state: an empty room.
    pub fn new() -> (r: Self)
        ensures
            r.participants@ == Set::<Seq<u8>>::empty(),
            r.wf(),
    {
        ClubServiceState { participants: ParticipantSet::new() }
    }

    /// Applies one request from `from` and returns the one update to
    /// broadcast. A leave removes the caller, a join adds it, and an audio
    /// payload leaves the room untouched.
    pub fn handle_request(&mut self, from: Vec<u8>, req: ClubRequest) -> (upd: ClubUpdate)
        requires
            old(self).wf(),
        ensures
            final(self).wf(),
            match req {
                ClubRequest::Participant(leaving) => {
                    &&& (leaving ==> final(self).participants@ == old(
                        self,
                    ).participants@.remove(from@))
                    &&& (!leaving ==> final(self).participants@ == old(
                        self,
                    ).participants@.insert(from@))
                    &&& (upd matches ClubUpdate::Participant(who, l) && who@ == from@ && l
                        == leaving)
                },
                ClubRequest::Audio(bytes) => {
                    &&& *final(self) == *old(self)
                    &&& (upd matches ClubUpdate::Audio(a, originators) && a@ == bytes@
                        && originators@.len() == 1 && originators@[0]@ == from@)
                },
            },
    {
        match req {
            ClubRequest::Participant(leaving) => {
                if leaving {
                    self.participants.remove(&from);
                } else {
                    let joined = copy_bytes(&from);
                    self.participants.insert(joined);
                }
                ClubUpdate::Participant(from, leaving)
            },
            ClubRequest::Audio(audio) => {
                let mut originators: Vec<Vec<u8>> = Vec::new();
                originators.push(from);
                ClubUpdate::Audio(audio, originators)
            },
        }
    }

    /// The update a new subscriber receives on joining: a full snapshot of
    /// the participant set as it stands at that moment.
    pub fn handle_subscribe(&self) -> (upd: ClubUpdate)
        ensures
            upd matches ClubUpdate::Participants(snap) && snap@ == self.participants@
                && snap.seq_view() == self.participants.seq_view(),
    {
        ClubUpdate::Participants(self.participants.duplicate())
    }
}

} // verus!
