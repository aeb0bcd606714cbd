//! The request envelope grammar. A request arrives as bytes holding a tagged
//! JSON object with exactly one tag: the service the request targets, and
//! inside it one variant tag with the payload, for example
//! `{"Club":{"Participant":true}}` or `{"Club":{"Audio":[1,2,3]}}`.
//! The codec here is canonical: the encoder emits the one compact spelling of
//! each request, and the decoder accepts exactly those spellings; anything
//! else is malformed. Decoding an encoded request gives the request back,
//! which is proved below.

use vstd::prelude::*;

use crate::club::ClubRequest;

verus! {

/// A request envelope: which service the request targets, and its payload.
pub enum AppRequest {
    Club(ClubRequest),
}

/// The payload of a club request, at the specification level.
pub enum ClubRequestView {
    Participant(bool),
    Audio(Seq<u8>),
}

/// A request envelope, at the specification level.
pub enum AppRequestView {
    Club(ClubRequestView),
}

impl View for ClubRequest {
    type V = ClubRequestView;

    open spec fn view(&self) -> ClubRequestView {
        match self {
            ClubRequest::Participant(leaving) => ClubRequestView::Participant(*leaving),
            ClubRequest::Audio(bytes) => ClubRequestView::Audio(bytes@),
        }
    }
}

impl View for AppRequest {
    type V = AppRequestView;

    open spec fn view(&self) -> AppRequestView {
        match self {
            AppRequest::Club(c) => AppRequestView::Club(c@),
        }
    }
}

/// The bytes of `{"Club":`.
pub open spec fn lit_club() -> Seq<u8> {
    seq![123u8, 34u8, 67u8, 108u8, 117u8, 98u8, 34u8, 58u8]
}

/// The bytes of `{"Participant":`.
pub open spec fn lit_participant() -> Seq<u8> {
    seq![
        123u8,
        34u8,
        80u8,
        97u8,
        114u8,
        116u8,
        105u8,
        99u8,
        105u8,
        112u8,
        97u8,
        110u8,
        116u8,
        34u8,
        58u8,
    ]
}

/// The bytes of `{"Audio":`.
pub open spec fn lit_audio() -> Seq<u8> {
    seq![123u8, 34u8, 65u8, 117u8, 100u8, 105u8, 111u8, 34u8, 58u8]
}

/// The bytes of `true`.
pub open spec fn lit_true() -> Seq<u8> {
    seq![116u8, 114u8, 117u8, 101u8]
}

/// The bytes of `false`.
pub open spec fn lit_false() -> Seq<u8> {
    seq![102u8, 97u8, 108u8, 115u8, 101u8]
}

/// Whether `b` is an ASCII decimal digit.
pub open spec fn is_digit(b: u8) -> bool {
    48 <= b <= 57
}

/// The ASCII digit for a value below ten.
pub open spec fn digit(d: int) -> u8 {
    (48 + d) as u8
}

/// The shortest decimal spelling of a byte value.
pub open spec fn dec_bytes(n: u8) -> Seq<u8> {
    if n < 10 {
        seq![digit(n as int)]
    } else if n < 100 {
        seq![digit(n as int / 10), digit(n as int % 10)]
    } else {
        seq![digit(n as int / 100), digit((n as int / 10) % 10), digit(n as int % 10)]
    }
}

/// Reads a decimal byte value from the front of `s`: one to three digits, no
/// leading zero, at most 255. Returns the value and the unread remainder.
pub open spec fn parse_num(s: Seq<u8>) -> Option<(u8, Seq<u8>)> {
    if s.len() >= 1 && is_digit(s[0]) {
        if s.len() >= 2 && is_digit(s[1]) {
            if s[0] == 48 {
                None
            } else if s.len() >= 3 && is_digit(s[2]) {
                if s.len() >= 4 && is_digit(s[3]) {
                    None
                } else {
                    let v = 100 * (s[0] - 48) + 10 * (s[1] - 48) + (s[2] - 48);
                    if v > 255 {
                        None
                    } else {
                        Some((v as u8, s.skip(3)))
                    }
                }
            } else {
                Some(((10 * (s[0] - 48) + (s[1] - 48)) as u8, s.skip(2)))
            }
        } else {
            Some(((s[0] - 48) as u8, s.skip(1)))
        }
    } else {
        None
    }
}

/// Reading back the decimal spelling of `n` yields `n` and leaves a remainder
/// that does not begin with a digit untouched.
pub proof fn lemma_parse_num_round_trip(n: u8, rest: Seq<u8>)
    requires
        rest.len() == 0 || !is_digit(rest[0]),
    ensures
        parse_num(dec_bytes(n) + rest) == Some::<(u8, Seq<u8>)>((n, rest)),
{
    let s = dec_bytes(n) + rest;
    if n < 10 {
        assert(s[0] == digit(n as int));
        assert(s.skip(1) =~= rest);
    } else if n < 100 {
        assert(s[0] == digit(n as int / 10));
        assert(s[1] == digit(n as int % 10));
        assert(n as int / 10 >= 1);
        assert(10 * (s[0] - 48) + (s[1] - 48) == n);
        assert(s.skip(2) =~= rest);
    } else {
        assert(s[0] == digit(n as int / 100));
        assert(s[1] == digit((n as int / 10) % 10));
        assert(s[2] == digit(n as int % 10));
        assert(n as int / 100 >= 1);
        assert(100 * (s[0] - 48) + 10 * (s[1] - 48) + (s[2] - 48) == n);
        assert(s.skip(3) =~= rest);
    }
}

/// Whether `pat` occurs in `bytes` at position `start`.
pub fn region_eq(bytes: &Vec<u8>, start: usize, pat: &Vec<u8>) -> (r: bool)
    requires
        start + pat@.len() <= bytes@.len(),
    ensures
        r == (bytes@.subrange(start as int, start + pat@.len()) == pat@),
{
    let mut i: usize = 0;
    while i < pat.len()
        invariant
            i <= pat.len(),
            start + pat@.len() <= bytes@.len(),
            forall|j: int| 0 <= j < i ==> bytes@[start + j] == pat@[j],
        decreases pat.len() - i,
    {
        proof {
            assert(start + i < bytes@.len());
            assert(bytes@.len() == bytes.len());
        }
        if bytes[start + i] != pat[i] {
            proof {
                assert(bytes@.subrange(start as int, start + pat@.len())[i as int] != pat@[i as int]);
            }
            return false;
        }
        i += 1;
    }
    proof {
        assert(bytes@.subrange(start as int, start + pat@.len()) =~= pat@);
    }
    true
}

/// The spelling of a byte list: `[` , comma-separated decimals, `]`.
pub open spec fn list_bytes(s: Seq<u8>) -> Seq<u8> {
    seq![91u8] + list_items(s) + seq![93u8]
}

/// The comma-separated decimal spellings of the bytes of `s`.
pub open spec fn list_items(s: Seq<u8>) -> Seq<u8>
    decreases s.len(),
{
    if s.len() == 0 {
        Seq::<u8>::empty()
    } else if s.len() == 1 {
        dec_bytes(s[0])
    } else {
        dec_bytes(s[0]) + seq![44u8] + list_items(s.drop_first())
    }
}

/// Reads a whole byte list: the bytes between `[` and `]`.
pub open spec fn parse_list(s: Seq<u8>) -> Option<Seq<u8>> {
    if s.len() >= 2 && s[0] == 91 && s[s.len() - 1] == 93 {
        let body = s.subrange(1, s.len() - 1);
        if body.len() == 0 {
            Some(Seq::<u8>::empty())
        } else {
            parse_items(body)
        }
    } else {
        None
    }
}

/// Reads a non-empty comma-separated run of decimals to the end of `s`.
pub open spec fn parse_items(s: Seq<u8>) -> Option<Seq<u8>>
    decreases s.len(),
{
    match parse_num(s) {
        Some((n, rest)) => {
            if rest.len() == 0 {
                Some(seq![n])
            } else if rest[0] == 44 && rest.len() >= 2 {
                match parse_items(rest.drop_first()) {
                    Some(t) => Some(seq![n] + t),
                    None => None,
                }
            } else {
                None
            }
        },
        None => None,
    }
}

/// Reading back the spelled-out items of a non-empty `s` yields `s`.
pub proof fn lemma_parse_items_round_trip(s: Seq<u8>)
    requires
        s.len() > 0,
    ensures
        parse_items(list_items(s)) == Some(s),
    decreases s.len(),
{
    if s.len() == 1 {
        lemma_parse_num_round_trip(s[0], Seq::<u8>::empty());
        assert(dec_bytes(s[0]) + Seq::<u8>::empty() =~= dec_bytes(s[0]));
        assert(parse_num(list_items(s)) == Some::<(u8, Seq<u8>)>((s[0], Seq::<u8>::empty())));
        assert(seq![s[0]] =~= s);
    } else {
        let rest = seq![44u8] + list_items(s.drop_first());
        assert(!is_digit(rest[0]));
        lemma_parse_num_round_trip(s[0], rest);
        assert(list_items(s) == dec_bytes(s[0]) + rest);
        assert(parse_num(list_items(s)) == Some::<(u8, Seq<u8>)>((s[0], rest)));
        lemma_parse_items_round_trip(s.drop_first());
        assert(list_items(s.drop_first()).len() > 0) by {
            lemma_list_items_len(s.drop_first());
        }
        assert(rest.len() >= 2);
        assert(rest.drop_first() =~= list_items(s.drop_first()));
        assert(seq![s[0]] + s.drop_first() =~= s);
    }
}

/// A non-empty list spells out to a non-empty run of items.
pub proof fn lemma_list_items_len(s: Seq<u8>)
    requires
        s.len() > 0,
    ensures
        list_items(s).len() > 0,
{
}

/// The spelling of a club request payload.
pub open spec fn club_request_bytes(r: ClubRequestView) -> Seq<u8> {
    match r {
        ClubRequestView::Participant(leaving) => lit_participant() + (if leaving {
            lit_true()
        } else {
            lit_false()
        }) + seq![125u8],
        ClubRequestView::Audio(s) => lit_audio() + list_bytes(s) + seq![125u8],
    }
}

/// The spelling of a whole request envelope.
pub open spec fn request_bytes(r: AppRequestView) -> Seq<u8> {
    match r {
        AppRequestView::Club(c) => lit_club() + club_request_bytes(c) + seq![125u8],
    }
}

/// Reads a club request payload.
pub open spec fn parse_club_request(s: Seq<u8>) -> Option<ClubRequestView> {
    if s.len() >= 16 && s.subrange(0, 15) == lit_participant() && s[s.len() - 1] == 125 {
        let mid = s.subrange(15, s.len() - 1);
        if mid == lit_true() {
            Some(ClubRequestView::Participant(true))
        } else if mid == lit_false() {
            Some(ClubRequestView::Participant(false))
        } else {
            None
        }
    } else if s.len() >= 10 && s.subrange(0, 9) == lit_audio() && s[s.len() - 1] == 125 {
        match parse_list(s.subrange(9, s.len() - 1)) {
            Some(items) => Some(ClubRequestView::Audio(items)),
            None => None,
        }
    } else {
        None
    }
}

/// Reads a whole request envelope.
pub open spec fn parse_request(s: Seq<u8>) -> Option<AppRequestView> {
    if s.len() >= 9 && s.subrange(0, 8) == lit_club() && s[s.len() - 1] == 125 {
        match parse_club_request(s.subrange(8, s.len() - 1)) {
            Some(c) => Some(AppRequestView::Club(c)),
            None => None,
        }
    } else {
        None
    }
}

/// Reading back the spelling of a club request yields the request.
pub proof fn lemma_parse_club_round_trip(c: ClubRequestView)
    ensures
        parse_club_request(club_request_bytes(c)) == Some(c),
{
    let s = club_request_bytes(c);
    match c {
        ClubRequestView::Participant(leaving) => {
            assert(s.subrange(0, 15) =~= lit_participant());
            assert(s[s.len() - 1] == 125);
            if leaving {
                assert(s.subrange(15, s.len() - 1) =~= lit_true());
            } else {
                assert(s.subrange(15, s.len() - 1) =~= lit_false());
                assert(s.subrange(15, s.len() - 1) != lit_true());
            }
        },
        ClubRequestView::Audio(items) => {
            assert(s[2] == 65);
            assert(s.len() >= 16 ==> s.subrange(0, 15)[2] != lit_participant()[2]);
            assert(s.subrange(0, 9) =~= lit_audio());
            assert(s[s.len() - 1] == 125);
            let inner = s.subrange(9, s.len() - 1);
            assert(inner =~= list_bytes(items));
            assert(inner[0] == 91 && inner[inner.len() - 1] == 93);
            let body = inner.subrange(1, inner.len() - 1);
            assert(body =~= list_items(items));
            if items.len() == 0 {
                assert(body.len() == 0);
                assert(parse_list(inner) == Some(Seq::<u8>::empty()));
                assert(items =~= Seq::<u8>::empty());
            } else {
                lemma_list_items_len(items);
                lemma_parse_items_round_trip(items);
            }
        },
    }
}

/// Reading back the spelling of a request envelope yields the request:
/// the codec round-trips.
pub proof fn lemma_parse_request_round_trip(r: AppRequestView)
    ensures
        parse_request(request_bytes(r)) == Some(r),
{
    let s = request_bytes(r);
    match r {
        AppRequestView::Club(c) => {
            assert(s.subrange(0, 8) =~= lit_club());
            assert(s[s.len() - 1] == 125);
            assert(s.subrange(8, s.len() - 1) =~= club_request_bytes(c));
            lemma_parse_club_round_trip(c);
        },
    }
}

/// The tag `{"Club":` as data.
fn club_tag() -> (r: Vec<u8>)
    ensures
        r@ == lit_club(),
{
    let mut v: Vec<u8> = Vec::new();
    v.push(123);
    v.push(34);
    v.push(67);
    v.push(108);
    v.push(117);
    v.push(98);
    v.push(34);
    v.push(58);
    proof {
        assert(v@ =~= lit_club());
    }
    v
}

/// The tag `{"Participant":` as data.
fn participant_tag() -> (r: Vec<u8>)
    ensures
        r@ == lit_participant(),
{
    let mut v: Vec<u8> = Vec::new();
    v.push(123);
    v.push(34);
    v.push(80);
    v.push(97);
    v.push(114);
    v.push(116);
    v.push(105);
    v.push(99);
    v.push(105);
    v.push(112);
    v.push(97);
    v.push(110);
    v.push(116);
    v.push(34);
    v.push(58);
    proof {
        assert(v@ =~= lit_participant());
    }
    v
}

/// The tag `{"Audio":` as data.
fn audio_tag() -> (r: Vec<u8>)
    ensures
        r@ == lit_audio(),
{
    let mut v: Vec<u8> = Vec::new();
    v.push(123);
    v.push(34);
    v.push(65);
    v.push(117);
    v.push(100);
    v.push(105);
    v.push(111);
    v.push(34);
    v.push(58);
    proof {
        assert(v@ =~= lit_audio());
    }
    v
}

/// The literal `true` as data.
fn true_lit() -> (r: Vec<u8>)
    ensures
        r@ == lit_true(),
{
    let mut v: Vec<u8> = Vec::new();
    v.push(116);
    v.push(114);
    v.push(117);
    v.push(101);
    proof {
        assert(v@ =~= lit_true());
    }
    v
}

/// The literal `false` as data.
fn false_lit() -> (r: Vec<u8>)
    ensures
        r@ == lit_false(),
{
    let mut v: Vec<u8> = Vec::new();
    v.push(102);
    v.push(97);
    v.push(108);
    v.push(115);
    v.push(101);
    proof {
        assert(v@ =~= lit_false());
    }
    v
}

/// Appends the decimal spelling of `n`.
fn push_dec(out: &mut Vec<u8>, n: u8)
    ensures
        final(out)@ == old(out)@ + dec_bytes(n),
{
    if n < 10 {
        out.push(48 + n);
        proof {
            assert(final(out)@ =~= old(out)@ + dec_bytes(n));
        }
    } else if n < 100 {
        out.push(48 + n / 10);
        out.push(48 + n % 10);
        proof {
            assert(final(out)@ =~= old(out)@ + dec_bytes(n));
        }
    } else {
        out.push(48 + n / 100);
        out.push(48 + (n / 10) % 10);
        out.push(48 + n % 10);
        proof {
            assert(final(out)@ =~= old(out)@ + dec_bytes(n));
        }
    }
}

/// A spelled-out non-empty prefix grows by a comma and one more decimal.
proof fn lemma_list_items_snoc(s: Seq<u8>, x: u8)
    requires
        s.len() > 0,
    ensures
        list_items(s.push(x)) == list_items(s) + seq![44u8] + dec_bytes(x),
    decreases s.len(),
{
    if s.len() == 1 {
        assert(s.push(x).drop_first() =~= seq![x]);
        assert(list_items(seq![x]) == dec_bytes(x));
        assert(list_items(s.push(x)) =~= list_items(s) + seq![44u8] + dec_bytes(x));
    } else {
        assert(s.push(x).drop_first() =~= s.drop_first().push(x));
        lemma_list_items_snoc(s.drop_first(), x);
        assert(list_items(s.push(x)) =~= list_items(s) + seq![44u8] + dec_bytes(x));
    }
}

/// Appends the spelling of a byte list.
fn push_list(out: &mut Vec<u8>, s: &Vec<u8>)
    ensures
        final(out)@ == old(out)@ + list_bytes(s@),
{
    out.push(91);
    let mut i: usize = 0;
    while i < s.len()
        invariant
            i <= s.len(),
            out@ == old(out)@ + seq![91u8] + list_items(s@.subrange(0, i as int)),
        decreases s.len() - i,
    {
        let ghost prefix = s@.subrange(0, i as int);
        if i > 0 {
            out.push(44);
            push_dec(out, s[i]);
            proof {
                assert(s@.subrange(0, i + 1) =~= prefix.push(s@[i as int]));
                lemma_list_items_snoc(prefix, s@[i as int]);
                assert(out@ =~= old(out)@ + seq![91u8] + list_items(s@.subrange(0, i + 1)));
            }
        } else {
            push_dec(out, s[i]);
            proof {
                assert(s@.subrange(0, 1) =~= seq![s@[0]]);
                assert(list_items(seq![s@[0]]) == dec_bytes(s@[0]));
                assert(out@ =~= old(out)@ + seq![91u8] + list_items(s@.subrange(0, 1)));
            }
        }
        i += 1;
    }
    out.push(93);
    proof {
        assert(s@.subrange(0, s@.len() as int) =~= s@);
        assert(out@ =~= old(out)@ + list_bytes(s@));
    }
}

/// Spells out a request envelope in its canonical form.
pub fn encode_request(r: &AppRequest) -> (out: Vec<u8>)
    ensures
        out@ == request_bytes(r@),
{
    let mut out: Vec<u8> = club_tag();
    match r {
        AppRequest::Club(c) => {
            match c {
                ClubRequest::Participant(leaving) => {
                    let mut tag = participant_tag();
                    out.append(&mut tag);
                    let mut word = if *leaving {
                        true_lit()
                    } else {
                        false_lit()
                    };
                    out.append(&mut word);
                    out.push(125);
                },
                ClubRequest::Audio(payload) => {
                    let mut tag = audio_tag();
                    out.append(&mut tag);
                    push_list(&mut out, payload);
                    out.push(125);
                },
            }
        },
    }
    out.push(125);
    proof {
        assert(out@ =~= request_bytes(r@));
    }
    out
}

/// Reads one decimal from `bytes[start..end]`, mirroring `parse_num`.
fn decode_num(bytes: &Vec<u8>, start: usize, end: usize) -> (r: Option<(u8, usize)>)
    requires
        start <= end <= bytes@.len(),
    ensures
        match r {
            Some(p) => {
                &&& start < p.1 <= end
                &&& parse_num(bytes@.subrange(start as int, end as int)) == Some(
                    (p.0, bytes@.subrange(p.1 as int, end as int)),
                )
            },
            None => parse_num(bytes@.subrange(start as int, end as int)) is None,
        },
{
    let ghost s = bytes@.subrange(start as int, end as int);
    if start < end && 48 <= bytes[start] && bytes[start] <= 57 {
        if start + 1 < end && 48 <= bytes[start + 1] && bytes[start + 1] <= 57 {
            if bytes[start] == 48 {
                None
            } else if start + 2 < end && 48 <= bytes[start + 2] && bytes[start + 2] <= 57 {
                if start + 3 < end && 48 <= bytes[start + 3] && bytes[start + 3] <= 57 {
                    None
                } else {
                    let v: u32 = 100 * ((bytes[start] - 48) as u32) + 10 * ((bytes[start + 1]
                        - 48) as u32) + ((bytes[start + 2] - 48) as u32);
                    if v > 255 {
                        None
                    } else {
                        proof {
                            assert(s.skip(3) =~= bytes@.subrange(start + 3, end as int));
                        }
                        Some((v as u8, start + 3))
                    }
                }
            } else {
                proof {
                    assert(s.skip(2) =~= bytes@.subrange(start + 2, end as int));
                }
                Some((10 * (bytes[start] - 48) + (bytes[start + 1] - 48), start + 2))
            }
        } else {
            proof {
                assert(s.skip(1) =~= bytes@.subrange(start + 1, end as int));
            }
            Some((bytes[start] - 48, start + 1))
        }
    } else {
        None
    }
}

/// Reads a comma-separated run of decimals filling `bytes[start..end]`,
/// mirroring `parse_items`.
fn decode_items(bytes: &Vec<u8>, start: usize, end: usize) -> (r: Option<Vec<u8>>)
    requires
        start < end <= bytes@.len(),
    ensures
        match r {
            Some(v) => parse_items(bytes@.subrange(start as int, end as int)) == Some(v@),
            None => parse_items(bytes@.subrange(start as int, end as int)) is None,
        },
{
    let ghost whole = bytes@.subrange(start as int, end as int);
    broadcast use Seq::add_empty_left;

    let mut acc: Vec<u8> = Vec::new();
    let mut pos: usize = start;
    loop
        invariant
            start <= pos < end <= bytes@.len(),
            whole == bytes@.subrange(start as int, end as int),
            parse_items(whole) == (match parse_items(bytes@.subrange(pos as int, end as int)) {
                Some(t) => Some(acc@ + t),
                None => None::<Seq<u8>>,
            }),
        decreases end - pos,
    {
        let ghost rem = bytes@.subrange(pos as int, end as int);
        let ghost acc_entry = acc@;
        match decode_num(bytes, pos, end) {
            None => {
                proof {
                    assert(parse_items(rem) is None);
                }
                return None;
            },
            Some((v, next)) => {
                proof {
                    assert(parse_num(rem) == Some((v, bytes@.subrange(next as int, end as int))));
                }
                acc.push(v);
                if next == end {
                    proof {
                        assert(bytes@.subrange(next as int, end as int).len() == 0);
                        assert(parse_items(rem) == Some(seq![v]));
                        assert(acc@ =~= acc_entry + seq![v]);
                        assert(parse_items(whole) == Some(acc@));
                    }
                    return Some(acc);
                } else if bytes[next] == 44 && next + 1 < end {
                    proof {
                        let rest = bytes@.subrange(next as int, end as int);
                        assert(rest[0] == 44 && rest.len() >= 2);
                        assert(rest.drop_first() =~= bytes@.subrange(next + 1, end as int));
                        match parse_items(bytes@.subrange(next + 1, end as int)) {
                            Some(t) => {
                                assert(parse_items(rem) == Some(seq![v] + t));
                                assert(acc_entry + (seq![v] + t) =~= acc@ + t);
                            },
                            None => {
                                assert(parse_items(rem) is None);
                            },
                        }
                    }
                    pos = next + 1;
                } else {
                    proof {
                        let rest = bytes@.subrange(next as int, end as int);
                        if bytes@[next as int] == 44 {
                            assert(rest.len() < 2);
                        } else {
                            assert(rest[0] != 44);
                        }
                        assert(parse_items(rem) is None);
                    }
                    return None;
                }
            },
        }
    }
}

/// Reads a whole byte list filling `bytes[start..end]`, mirroring
/// `parse_list`.
fn decode_list(bytes: &Vec<u8>, start: usize, end: usize) -> (r: Option<Vec<u8>>)
    requires
        start <= end <= bytes@.len(),
    ensures
        match r {
            Some(v) => parse_list(bytes@.subrange(start as int, end as int)) == Some(v@),
            None => parse_list(bytes@.subrange(start as int, end as int)) is None,
        },
{
    let ghost s = bytes@.subrange(start as int, end as int);
    if end - start >= 2 && bytes[start] == 91 && bytes[end - 1] == 93 {
        proof {
            assert(s[0] == 91 && s[s.len() - 1] == 93);
            assert(s.subrange(1, s.len() - 1) =~= bytes@.subrange(start + 1, end - 1));
        }
        if start + 1 == end - 1 {
            let empty: Vec<u8> = Vec::new();
            proof {
                assert(empty@ =~= Seq::<u8>::empty());
            }
            Some(empty)
        } else {
            decode_items(bytes, start + 1, end - 1)
        }
    } else {
        proof {
            if s.len() >= 2 {
                assert(s[0] == bytes@[start as int]);
                assert(s[s.len() - 1] == bytes@[end - 1]);
            }
        }
        None
    }
}

/// Reads a club request payload filling `bytes[start..end]`, mirroring
/// `parse_club_request`.
fn decode_club(bytes: &Vec<u8>, start: usize, end: usize) -> (r: Option<ClubRequest>)
    requires
        start <= end <= bytes@.len(),
    ensures
        match r {
            Some(c) => parse_club_request(bytes@.subrange(start as int, end as int)) == Some(c@),
            None => parse_club_request(bytes@.subrange(start as int, end as int)) is None,
        },
{
    let ghost s = bytes@.subrange(start as int, end as int);
    let p_tag = participant_tag();
    let a_tag = audio_tag();
    if end - start >= 16 && region_eq(bytes, start, &p_tag) && bytes[end - 1] == 125 {
        proof {
            assert(s.subrange(0, 15) =~= bytes@.subrange(start as int, start + 15));
            assert(s[s.len() - 1] == 125);
        }
        let t_lit = true_lit();
        let f_lit = false_lit();
        let ghost mid = s.subrange(15, s.len() - 1);
        proof {
            assert(mid =~= bytes@.subrange(start + 15, end - 1));
        }
        if end - start == 20 && region_eq(bytes, start + 15, &t_lit) {
            proof {
                assert(mid =~= bytes@.subrange(start + 15, start + 15 + 4));
            }
            Some(ClubRequest::Participant(true))
        } else if end - start == 21 && region_eq(bytes, start + 15, &f_lit) {
            proof {
                assert(mid =~= bytes@.subrange(start + 15, start + 15 + 5));
                assert(mid != lit_true());
            }
            Some(ClubRequest::Participant(false))
        } else {
            proof {
                if mid == lit_true() {
                    assert(s.len() == 20);
                    assert(bytes@.subrange(start + 15, start + 15 + 4) =~= mid);
                }
                if mid == lit_false() {
                    assert(s.len() == 21);
                    assert(bytes@.subrange(start + 15, start + 15 + 5) =~= mid);
                }
            }
            None
        }
    } else if end - start >= 10 && region_eq(bytes, start, &a_tag) && bytes[end - 1] == 125 {
        proof {
            assert(s.len() >= 16 ==> s.subrange(0, 15)[2] == bytes@[start + 2]);
            assert(bytes@[start + 2] == lit_audio()[2]);
            assert(s.len() >= 16 ==> s.subrange(0, 15) != lit_participant());
            assert(s.subrange(0, 9) =~= bytes@.subrange(start as int, start + 9));
            assert(s[s.len() - 1] == 125);
            assert(s.subrange(9, s.len() - 1) =~= bytes@.subrange(start + 9, end - 1));
        }
        match decode_list(bytes, start + 9, end - 1) {
            Some(items) => Some(ClubRequest::Audio(items)),
            None => None,
        }
    } else {
        proof {
            if s.len() >= 16 && s.subrange(0, 15) == lit_participant() && s[s.len() - 1] == 125 {
                assert(bytes@.subrange(start as int, start + 15) =~= s.subrange(0, 15));
                assert(bytes@[end - 1] == s[s.len() - 1]);
                assert(false);
            }
            if s.len() >= 10 && s.subrange(0, 9) == lit_audio() && s[s.len() - 1] == 125 {
                assert(bytes@.subrange(start as int, start + 9) =~= s.subrange(0, 9));
                assert(bytes@[end - 1] == s[s.len() - 1]);
                assert(false);
            }
        }
        None
    }
}

/// Reads a request envelope, mirroring `parse_request`: the result is
/// `Some` exactly when the bytes are the canonical spelling of a request,
/// and then it is that request.
pub fn decode_request(bytes: &Vec<u8>) -> (r: Option<AppRequest>)
    ensures
        match r {
            Some(req) => parse_request(bytes@) == Some(req@),
            None => parse_request(bytes@) is None,
        },
{
    let n = bytes.len();
    let c_tag = club_tag();
    if n >= 9 && region_eq(bytes, 0, &c_tag) && bytes[n - 1] == 125 {
        proof {
            assert(bytes@.subrange(0int, 0int + 8) =~= bytes@.subrange(0, 8));
        }
        match decode_club(bytes, 8, n - 1) {
            Some(c) => Some(AppRequest::Club(c)),
            None => None,
        }
    } else {
        proof {
            if bytes@.len() >= 9 {
                assert(bytes@.subrange(0int, 0int + 8) =~= bytes@.subrange(0, 8));
            }
        }
        None
    }
}

} // verus!
