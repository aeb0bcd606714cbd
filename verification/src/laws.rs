//! Laws of the participant set under presence requests, stated over the same
//! step function that `dispatch` and `handle_request` are specified with.

use vstd::prelude::*;

use crate::router::presence_step;

verus! {

/// The participant set after a history of presence requests, applied in
/// order to `ps`. Each entry is a caller and its leaving flag.
pub open spec fn apply_presence(ps: Set<Seq<u8>>, reqs: Seq<(Seq<u8>, bool)>) -> Set<Seq<u8>>
    decreases reqs.len(),
{
    if reqs.len() == 0 {
        ps
    } else {
        presence_step(apply_presence(ps, reqs.drop_last()), reqs.last().0, reqs.last().1)
    }
}

/// The leaving flag of the most recent request by `c` in the history, if
/// `c` appears in it at all.
pub open spec fn last_presence(reqs: Seq<(Seq<u8>, bool)>, c: Seq<u8>) -> Option<bool>
    decreases reqs.len(),
{
    if reqs.len() == 0 {
        None
    } else if reqs.last().0 == c {
        Some(reqs.last().1)
    } else {
        last_presence(reqs.drop_last(), c)
    }
}

/// After any history of presence requests applied to an empty room, the
/// participant set is exactly the set of callers whose most recent request
/// was a join.
pub proof fn lemma_presence_history(reqs: Seq<(Seq<u8>, bool)>)
    ensures
        apply_presence(Set::<Seq<u8>>::empty(), reqs) == Set::new(
            |c: Seq<u8>| last_presence(reqs, c) == Some(false),
        ),
    decreases reqs.len(),
{
    let target = Set::new(|c: Seq<u8>| last_presence(reqs, c) == Some(false));
    if reqs.len() == 0 {
        assert(apply_presence(Set::<Seq<u8>>::empty(), reqs) =~= target);
    } else {
        lemma_presence_history(reqs.drop_last());
        let prev = apply_presence(Set::<Seq<u8>>::empty(), reqs.drop_last());
        let who = reqs.last().0;
        let leaving = reqs.last().1;
        assert forall|c: Seq<u8>| presence_step(prev, who, leaving).contains(c)
            <==> target.contains(c) by {
            if c == who {
                assert(last_presence(reqs, c) == Some(leaving));
            } else {
                assert(last_presence(reqs, c) == last_presence(reqs.drop_last(), c));
            }
        }
        assert(presence_step(prev, who, leaving) =~= target);
    }
}

/// A caller leaving a room it is not in leaves the set unchanged: the leave
/// step is idempotent on absence.
pub proof fn lemma_leave_absent(ps: Set<Seq<u8>>, c: Seq<u8>)
    requires
        !ps.contains(c),
    ensures
        presence_step(ps, c, true) == ps,
{
    assert(ps.remove(c) =~= ps);
}

} // verus!
