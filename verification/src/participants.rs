//! Sets of caller identities. An identity is an opaque byte string (the node
//! name as the host runtime hands it over). The same type serves as the
//! participant set of a service and as the subscriber directory of a service:
//! both are unordered, duplicate-free collections of identities.

use vstd::prelude::*;

verus! {

/// Copies a byte string.
pub fn copy_bytes(v: &Vec<u8>) -> (r: Vec<u8>)
    ensures
        r@ == v@,
{
    let mut r: Vec<u8> = Vec::new();
    let mut i: usize = 0;
    while i < v.len()
        invariant
            i <= v.len(),
            r@ == v@.subrange(0, i as int),
        decreases v.len() - i,
    {
        r.push(v[i]);
        i += 1;
        proof {
            assert(r@ =~= v@.subrange(0, i as int));
        }
    }
    proof {
        assert(r@ =~= v@);
    }
    r
}

/// A set of identities, kept without duplicates.
pub struct ParticipantSet {
    members: Vec<Vec<u8>>,
}

impl ParticipantSet {
    /// The members in storage order, each as its byte sequence.
    pub closed spec fn seq_view(&self) -> Seq<Seq<u8>> {
        Seq::new(self.members@.len(), |i: int| self.members@[i]@)
    }

    /// Internal invariant: no identity occurs twice.
    pub closed spec fn wf(&self) -> bool {
        self.seq_view().no_duplicates()
    }

    /// The empty set.
    pub fn new() -> (r: Self)
        ensures
            r@ == Set::<Seq<u8>>::empty(),
            r.wf(),
    {
        let r = ParticipantSet { members: Vec::new() };
        proof {
            assert(r.seq_view() =~= Seq::<Seq<u8>>::empty());
            assert(r@ =~= Set::<Seq<u8>>::empty());
        }
        r
    }

    /// Whether `id` is a member.
    pub fn contains(&self, id: &Vec<u8>) -> (r: bool)
        ensures
            r == self@.contains(id@),
    {
        let mut i: usize = 0;
        while i < self.members.len()
            invariant
                i <= self.members.len(),
                forall|j: int| 0 <= j < i ==> self.seq_view()[j] != id@,
            decreases self.members.len() - i,
        {
            if bytes_eq(&self.members[i], id) {
                proof {
                    assert(self.seq_view()[i as int] == id@);
                    assert(self.seq_view().contains(id@));
                }
                return true;
            }
            i += 1;
        }
        proof {
            assert(!self.seq_view().contains(id@));
        }
        false
    }

    /// Adds `id`; a second add of the same identity changes nothing.
    pub fn insert(&mut self, id: Vec<u8>)
        requires
            old(self).wf(),
        ensures
            final(self).wf(),
            final(self)@ == old(self)@.insert(id@),
    {
        if self.contains(&id) {
            proof {
                assert(self@.insert(id@) =~= self@);
            }
        } else {
            let ghost before = self.seq_view();
            self.members.push(id);
            proof {
                assert(self.seq_view() =~= before.push(id@));
                assert forall|x: Seq<u8>| self.seq_view().contains(x)
                    <==> (before.contains(x) || x == id@) by {
                    if self.seq_view().contains(x) {
                        let i = choose|i: int|
                            0 <= i < self.seq_view().len() && self.seq_view()[i] == x;
                        if i < before.len() {
                            assert(before[i] == x);
                        }
                    }
                    if before.contains(x) {
                        let i = choose|i: int| 0 <= i < before.len() && before[i] == x;
                        assert(self.seq_view()[i] == x);
                    }
                    if x == id@ {
                        assert(self.seq_view()[before.len() as int] == x);
                    }
                }
                assert(self@ =~= old(self)@.insert(id@));
            }
        }
    }

    /// Removes `id`; removing an absent identity changes nothing.
    pub fn remove(&mut self, id: &Vec<u8>)
        requires
            old(self).wf(),
        ensures
            final(self).wf(),
            final(self)@ == old(self)@.remove(id@),
    {
        let mut i: usize = 0;
        while i < self.members.len()
            invariant
                self == old(self),
                old(self).wf(),
                i <= self.members.len(),
                forall|j: int| 0 <= j < i ==> self.seq_view()[j] != id@,
            decreases self.members.len() - i,
        {
            if bytes_eq(&self.members[i], id) {
                let ghost before = self.seq_view();
                proof {
                    assert(before.no_duplicates());
                }
                self.members.swap_remove(i);
                proof {
                    let after = self.seq_view();
                    assert(self.members@ == old(self).members@.update(
                        i as int,
                        old(self).members@.last(),
                    ).drop_last());
                    assert(before[i as int] == id@);
                    assert forall|k: int| 0 <= k < after.len() implies after[k]
                        == before.update(i as int, before.last()).drop_last()[k] by {
                        assert(after[k] == self.members@[k]@);
                        if k == i {
                            assert(self.members@[k] == old(self).members@.last());
                        } else {
                            assert(self.members@[k] == old(self).members@[k]);
                        }
                    }
                    assert(after =~= before.update(i as int, before.last()).drop_last());
                    assert forall|x: Seq<u8>| after.contains(x)
                        <==> (before.contains(x) && x != id@) by {
                        if after.contains(x) {
                            let k = choose|k: int| 0 <= k < after.len() && after[k] == x;
                            if k == i {
                                assert(before[before.len() - 1] == x);
                            } else {
                                assert(before[k] == x);
                            }
                            assert(x != id@);
                        }
                        if before.contains(x) && x != id@ {
                            let k = choose|k: int| 0 <= k < before.len() && before[k] == x;
                            if k == i {
                                assert(false);
                            } else if k == before.len() - 1 {
                                if i < before.len() - 1 {
                                    assert(after[i as int] == x);
                                }
                            } else {
                                assert(after[k] == x);
                            }
                        }
                    }
                    assert(self@ =~= old(self)@.remove(id@));
                    assert forall|p: int, q: int|
                        0 <= p < q < after.len() implies after[p] != after[q] by {
                        let bp: int = if p == i { before.len() - 1 } else { p };
                        let bq: int = if q == i { before.len() - 1 } else { q };
                        assert(after[p] == before[bp]);
                        assert(after[q] == before[bq]);
                        assert(bp != bq);
                        assert(before[bp] != before[bq]);
                    }
                }
                return;
            }
            i += 1;
        }
        proof {
            assert(!self.seq_view().contains(id@));
            assert(!self@.contains(id@));
            assert(self@.remove(id@) =~= self@);
        }
    }

    /// A copy of this set.
    pub fn duplicate(&self) -> (r: Self)
        ensures
            r@ == self@,
            r.seq_view() == self.seq_view(),
            self.wf() ==> r.wf(),
    {
        let mut members: Vec<Vec<u8>> = Vec::new();
        let mut i: usize = 0;
        while i < self.members.len()
            invariant
                i <= self.members.len(),
                ids_view(members@) == self.seq_view().subrange(0, i as int),
            decreases self.members.len() - i,
        {
            let item = copy_bytes(&self.members[i]);
            let ghost members_before = members@;
            members.push(item);
            i += 1;
            proof {
                assert(ids_view(members_before).len() == members_before.len());
                assert(members_before.len() == i - 1);
                assert(members@ == members_before.push(item));
                assert forall|j: int| 0 <= j < i implies ids_view(members@)[j]
                    == self.seq_view().subrange(0, i as int)[j] by {
                    if j < i - 1 {
                        assert(members@[j] == members_before[j]);
                        assert(ids_view(members_before)[j] == self.seq_view()[j]);
                    } else {
                        assert(members@[j] == item);
                        assert(item@ == self.members@[j]@);
                    }
                }
                assert(ids_view(members@) =~= self.seq_view().subrange(0, i as int));
            }
        }
        let r = ParticipantSet { members };
        proof {
            assert(r.seq_view() =~= self.seq_view());
        }
        r
    }

    /// The members as a list, one entry per identity, in storage order.
    pub fn members(&self) -> (r: Vec<Vec<u8>>)
        ensures
            ids_view(r@) == self.seq_view(),
            ids_view(r@).to_set() == self@,
    {
        let copy = self.duplicate();
        copy.members
    }
}

impl View for ParticipantSet {
    type V = Set<Seq<u8>>;

    closed spec fn view(&self) -> Set<Seq<u8>> {
        self.seq_view().to_set()
    }
}

/// The byte sequences of a list of identities, in order.
pub open spec fn ids_view(ids: Seq<Vec<u8>>) -> Seq<Seq<u8>> {
    Seq::new(ids.len(), |i: int| ids[i]@)
}

/// Whether two byte strings hold the same bytes.
pub fn bytes_eq(a: &Vec<u8>, b: &Vec<u8>) -> (r: bool)
    ensures
        r == (a@ == b@),
{
    if a.len() != b.len() {
        proof {
            assert(a@ != b@);
        }
        return false;
    }
    let mut i: usize = 0;
    while i < a.len()
        invariant
            i <= a.len(),
            a.len() == b.len(),
            forall|j: int| 0 <= j < i ==> a@[j] == b@[j],
        decreases a.len() - i,
    {
        if a[i] != b[i] {
            return false;
        }
        i += 1;
    }
    proof {
        assert(a@ =~= b@);
    }
    true
}

} // verus!
