//! The persistence record format. A service's full state is flushed to
//! durable storage after every mutation and read back on start. The record
//! for the club service lists the participants: a count, then each identity
//! with a length prefix, all lengths as eight little-endian bytes. The codec
//! round-trips exactly, which is proved here; storage itself (reading and
//! writing the record under a service identifier) belongs to the host.

use vstd::prelude::*;

use vstd::bytes::lemma_auto_spec_u64_to_from_le_bytes;
use vstd::bytes::spec_u64_from_le_bytes;
use vstd::bytes::spec_u64_to_le_bytes;
use vstd::bytes::u64_from_le_bytes;
use vstd::bytes::u64_to_le_bytes;
use vstd::slice::slice_subrange;

use crate::club::ClubServiceState;
use crate::participants::copy_bytes;
use crate::participants::ids_view;

verus! {

/// The record bytes for a participant list.
pub open spec fn state_bytes(parts: Seq<Seq<u8>>) -> Seq<u8> {
    spec_u64_to_le_bytes(parts.len() as u64) + entries_bytes(parts)
}

/// The length-prefixed entries of the record, in order.
pub open spec fn entries_bytes(parts: Seq<Seq<u8>>) -> Seq<u8>
    decreases parts.len(),
{
    if parts.len() == 0 {
        Seq::<u8>::empty()
    } else {
        spec_u64_to_le_bytes(parts[0].len() as u64) + parts[0] + entries_bytes(parts.drop_first())
    }
}

/// Reads a record back into a participant list.
pub open spec fn parse_state(s: Seq<u8>) -> Option<Seq<Seq<u8>>> {
    if s.len() >= 8 {
        parse_entries(s.skip(8), spec_u64_from_le_bytes(s.subrange(0, 8)))
    } else {
        None
    }
}

/// Reads exactly `n` length-prefixed entries filling `s`.
pub open spec fn parse_entries(s: Seq<u8>, n: u64) -> Option<Seq<Seq<u8>>>
    decreases n,
{
    if n == 0 {
        if s.len() == 0 {
            Some(Seq::<Seq<u8>>::empty())
        } else {
            None
        }
    } else if s.len() >= 8 {
        let l = spec_u64_from_le_bytes(s.subrange(0, 8));
        if s.len() - 8 >= l {
            match parse_entries(s.skip(8).skip(l as int), (n - 1) as u64) {
                Some(t) => Some(seq![s.subrange(8, 8 + l)] + t),
                None => None,
            }
        } else {
            None
        }
    } else {
        None
    }
}

/// Reading back the entry bytes of a list yields the list, provided each
/// entry and the count fit the length fields, which machine limits grant.
proof fn lemma_parse_entries_round_trip(parts: Seq<Seq<u8>>)
    requires
        parts.len() < 0x8000_0000_0000_0000,
        forall|i: int| 0 <= i < parts.len() ==> #[trigger] parts[i].len() < 0x8000_0000_0000_0000,
    ensures
        parse_entries(entries_bytes(parts), parts.len() as u64) == Some(parts),
    decreases parts.len(),
{
    lemma_auto_spec_u64_to_from_le_bytes();
    if parts.len() == 0 {
        assert(entries_bytes(parts).len() == 0);
    } else {
        let head = parts[0];
        let rest = parts.drop_first();
        let s = entries_bytes(parts);
        let prefix = spec_u64_to_le_bytes(head.len() as u64);
        assert(s =~= prefix + head + entries_bytes(rest));
        assert(s.subrange(0, 8) =~= prefix);
        assert(spec_u64_from_le_bytes(s.subrange(0, 8)) == head.len() as u64);
        assert(s.subrange(8, 8 + head.len() as int) =~= head);
        assert(s.skip(8).skip(head.len() as int) =~= entries_bytes(rest));
        lemma_parse_entries_round_trip(rest);
        assert(seq![head] + rest =~= parts);
    }
}

/// The persistence round-trip law: reading back the record of a participant
/// list yields that list, whatever the identities hold. The length bounds are
/// machine limits; any list held in memory satisfies them.
pub proof fn lemma_parse_state_round_trip(parts: Seq<Seq<u8>>)
    requires
        parts.len() < 0x8000_0000_0000_0000,
        forall|i: int| 0 <= i < parts.len() ==> #[trigger] parts[i].len() < 0x8000_0000_0000_0000,
    ensures
        parse_state(state_bytes(parts)) == Some(parts),
{
    lemma_auto_spec_u64_to_from_le_bytes();
    let s = state_bytes(parts);
    assert(s.subrange(0, 8) =~= spec_u64_to_le_bytes(parts.len() as u64));
    assert(s.skip(8) =~= entries_bytes(parts));
    lemma_parse_entries_round_trip(parts);
}

/// Writes the record for the club service's state.
pub fn encode_state(state: &ClubServiceState) -> (out: Vec<u8>)
    ensures
        out@ == state_bytes(state.participants.seq_view()),
{
    let members = state.participants.members();
    let ghost parts = state.participants.seq_view();
    let mut out = u64_to_le_bytes(members.len() as u64);
    proof {
        assert(ids_view(members@).len() == members@.len());
    }
    let mut i: usize = 0;
    proof {
        assert(parts.subrange(0, 0) =~= Seq::<Seq<u8>>::empty());
        assert(out@ =~= spec_u64_to_le_bytes(parts.len() as u64) + entries_bytes(
            parts.subrange(0, 0),
        ));
    }
    while i < members.len()
        invariant
            i <= members.len(),
            ids_view(members@) == parts,
            out@ == spec_u64_to_le_bytes(parts.len() as u64) + entries_bytes(
                parts.subrange(0, i as int),
            ),
        decreases members.len() - i,
    {
        proof {
            assert(parts[i as int] == members@[i as int]@);
        }
        let mut len_bytes = u64_to_le_bytes(members[i].len() as u64);
        out.append(&mut len_bytes);
        let mut entry = copy_bytes(&members[i]);
        out.append(&mut entry);
        i += 1;
        proof {
            lemma_entries_split(parts.subrange(0, i as int), i - 1);
            assert(parts.subrange(0, i as int).subrange(0, i - 1) =~= parts.subrange(0, i - 1));
            let single = parts.subrange(0, i as int).subrange(i - 1, i as int);
            assert(single.len() == 1 && single[0] == parts[i - 1]);
            assert(single.drop_first() =~= Seq::<Seq<u8>>::empty());
            assert(entries_bytes(single.drop_first()).len() == 0);
            assert(entries_bytes(single) == spec_u64_to_le_bytes(single[0].len() as u64)
                + single[0] + entries_bytes(single.drop_first()));
            assert(entries_bytes(single) =~= spec_u64_to_le_bytes(parts[i - 1].len() as u64)
                + parts[i - 1]);
            assert(out@ =~= spec_u64_to_le_bytes(parts.len() as u64) + entries_bytes(
                parts.subrange(0, i as int),
            ));
        }
    }
    proof {
        assert(parts.subrange(0, parts.len() as int) =~= parts);
        assert(tail_entries(parts, parts.len() as int) =~= Seq::<u8>::empty());
        assert(out@ =~= state_bytes(parts));
    }
    out
}

/// The entry bytes of the suffix of `parts` from position `i` on.
pub open spec fn tail_entries(parts: Seq<Seq<u8>>, i: int) -> Seq<u8> {
    entries_bytes(parts.subrange(i, parts.len() as int))
}

/// Splitting the entries at a position splits their bytes: the whole run is
/// the run of the prefix followed by the run of the suffix.
proof fn lemma_entries_split(parts: Seq<Seq<u8>>, i: int)
    requires
        0 <= i <= parts.len(),
    ensures
        entries_bytes(parts) == entries_bytes(parts.subrange(0, i)) + tail_entries(parts, i),
    decreases i,
{
    if i == 0 {
        assert(entries_bytes(parts.subrange(0, 0)) =~= Seq::<u8>::empty());
        assert(parts.subrange(0, parts.len() as int) =~= parts);
        assert(entries_bytes(parts.subrange(0, 0)) + tail_entries(parts, 0) =~= entries_bytes(
            parts,
        ));
    } else {
        let first = parts[0];
        let rest = parts.drop_first();
        lemma_entries_split(rest, i - 1);
        assert(parts.subrange(0, i).drop_first() =~= rest.subrange(0, i - 1));
        assert(parts.subrange(i, parts.len() as int) =~= rest.subrange(i - 1, rest.len() as int));
        assert(entries_bytes(parts) =~= spec_u64_to_le_bytes(first.len() as u64) + first
            + entries_bytes(rest));
        assert(entries_bytes(parts.subrange(0, i)) =~= spec_u64_to_le_bytes(first.len() as u64)
            + first + entries_bytes(rest.subrange(0, i - 1)));
        assert(entries_bytes(parts.subrange(0, i)) + tail_entries(parts, i) =~= entries_bytes(
            parts,
        ));
    }
}

/// A sequence grown by one element collects, as a set, into the set grown
/// by that element.
proof fn lemma_to_set_push(s: Seq<Seq<u8>>, x: Seq<u8>)
    ensures
        s.push(x).to_set() == s.to_set().insert(x),
{
    assert forall|e: Seq<u8>| s.push(x).to_set().contains(e) <==> s.to_set().insert(x).contains(
        e,
    ) by {
        if s.push(x).contains(e) {
            let i = choose|i: int| 0 <= i < s.push(x).len() && s.push(x)[i] == e;
            if i < s.len() {
                assert(s[i] == e);
            }
        }
        if s.contains(e) {
            let i = choose|i: int| 0 <= i < s.len() && s[i] == e;
            assert(s.push(x)[i] == e);
        }
        if e == x {
            assert(s.push(x)[s.len() as int] == e);
        }
    }
    assert(s.push(x).to_set() =~= s.to_set().insert(x));
}

/// Reads a record back into club service state. Identities are collected
/// into the set, so a record that lists one twice still loads, into the set
/// of its entries. Returns `None` exactly when the bytes parse as no record.
pub fn decode_state(bytes: &Vec<u8>) -> (r: Option<ClubServiceState>)
    ensures
        match r {
            Some(state) => {
                &&& state.wf()
                &&& parse_state(bytes@) matches Some(parts) && state.participants@
                    == parts.to_set()
            },
            None => parse_state(bytes@) is None,
        },
{
    broadcast use vstd::seq_lib::group_seq_properties;

    let n = bytes.len();
    if n < 8 {
        return None;
    }
    let count_slice = slice_subrange(bytes.as_slice(), 0, 8);
    let count = u64_from_le_bytes(count_slice);
    proof {
        assert(count_slice@ =~= bytes@.subrange(0, 8));
        assert(bytes@.skip(8) =~= bytes@.subrange(8, n as int));
    }
    let mut state = ClubServiceState::new();
    let ghost done = Seq::<Seq<u8>>::empty();
    let mut pos: usize = 8;
    let mut k: u64 = 0;
    proof {
        assert(done.to_set() =~= Set::<Seq<u8>>::empty());
    }
    loop
        invariant
            8 <= pos <= n == bytes@.len(),
            k <= count,
            state.wf(),
            state.participants@ == done.to_set(),
            parse_state(bytes@) == (match parse_entries(
                bytes@.subrange(pos as int, n as int),
                (count - k) as u64,
            ) {
                Some(t) => Some(done + t),
                None => None::<Seq<Seq<u8>>>,
            }),
        decreases n - pos,
    {
        let ghost rem = bytes@.subrange(pos as int, n as int);
        let ghost done_entry = done;
        if k == count {
            if pos == n {
                proof {
                    assert(rem.len() == 0);
                    assert(parse_entries(rem, 0) == Some(Seq::<Seq<u8>>::empty()));
                    assert(done + Seq::<Seq<u8>>::empty() =~= done);
                }
                return Some(state);
            } else {
                proof {
                    assert(rem.len() > 0);
                    assert(parse_entries(rem, 0) is None);
                }
                return None;
            }
        }
        if n - pos < 8 {
            proof {
                assert(rem.len() < 8);
                assert(parse_entries(rem, (count - k) as u64) is None);
            }
            return None;
        }
        let len_slice = slice_subrange(bytes.as_slice(), pos, pos + 8);
        let l = u64_from_le_bytes(len_slice);
        proof {
            assert(len_slice@ =~= bytes@.subrange(pos as int, pos + 8));
            assert(rem.subrange(0, 8) =~= bytes@.subrange(pos as int, pos + 8));
        }
        let avail = n - pos - 8;
        if (avail as u64) < l {
            proof {
                assert(rem.len() - 8 < l);
                assert(parse_entries(rem, (count - k) as u64) is None);
            }
            return None;
        }
        let l_us = l as usize;
        let entry_slice = slice_subrange(bytes.as_slice(), pos + 8, pos + 8 + l_us);
        let entry = vstd::slice::slice_to_vec(entry_slice);
        proof {
            assert(entry@ =~= bytes@.subrange(pos + 8, pos + 8 + l_us));
            assert(rem.subrange(8, 8 + l as int) =~= bytes@.subrange(pos + 8, pos + 8 + l_us));
        }
        let ghost entry_view = entry@;
        state.participants.insert(entry);
        proof {
            done = done_entry.push(entry_view);
            lemma_to_set_push(done_entry, entry_view);
        }
        pos = pos + 8 + l_us;
        k = k + 1;
        proof {
            assert(rem.skip(8).skip(l as int) =~= bytes@.subrange(pos as int, n as int));
            match parse_entries(bytes@.subrange(pos as int, n as int), (count - k) as u64) {
                Some(t) => {
                    assert(parse_entries(rem, (count - k + 1) as u64) == Some(
                        seq![entry_view] + t,
                    ));
                    assert(done_entry + (seq![entry_view] + t) =~= done + t);
                },
                None => {
                    assert(parse_entries(rem, (count - k + 1) as u64) is None);
                },
            }
        }
    }
}

} // verus!
