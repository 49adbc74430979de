//! The plaintext control frame that rides on the TCP stream outside the
//! AEAD envelope: a small JSON object `{"t":"<kind>","c":[<bytes>]}`. The
//! kind solicits identity (`"id"`), solicits the application init (`"i"`),
//! or carries an encrypted message packet (`"m"`); the content is a byte
//! array written as decimal numbers.
//!
//! The grammar accepted here is the canonical form that the emitter
//! produces: both keys in order, no whitespace, numbers without leading
//! zeros. [`spec_parse_frame`] is the exact definition of what is accepted.

use vstd::prelude::*;
use vstd::slice::*;

verus! {

/// One control frame: a kind and an opaque content.
pub struct ClientRequest {
    pub request_type: Vec<u8>,
    pub content: Vec<u8>,
}

/// A kind that can be framed unambiguously: no quote byte inside.
pub open spec fn frame_type_ok(t: Seq<u8>) -> bool {
    forall|i: int| 0 <= i < t.len() ==> t[i] != 34u8
}

/// `{"t":"` — the opening of a frame.
pub open spec fn frame_pre() -> Seq<u8> {
    seq![123u8, 34u8, 116u8, 34u8, 58u8, 34u8]
}

/// `","c":[` — between the kind and the content list, including the
/// closing quote of the kind.
pub open spec fn frame_mid() -> Seq<u8> {
    seq![34u8, 44u8, 34u8, 99u8, 34u8, 58u8, 91u8]
}

/// `]}` — the end of a frame.
pub open spec fn frame_suf() -> Seq<u8> {
    seq![93u8, 125u8]
}

/// The canonical decimal digits of one byte: no leading zeros.
pub open spec fn dec_digits(n: u8) -> Seq<u8> {
    if n < 10 {
        seq![(48 + n) as u8]
    } else if n < 100 {
        seq![(48 + n / 10) as u8, (48 + n % 10) as u8]
    } else {
        seq![(48 + n / 100) as u8, (48 + (n / 10) % 10) as u8, (48 + n % 10) as u8]
    }
}

/// The content bytes as a comma-separated decimal list.
pub open spec fn byte_list(c: Seq<u8>) -> Seq<u8>
    decreases c.len(),
{
    if c.len() == 0 {
        Seq::empty()
    } else if c.len() == 1 {
        dec_digits(c[0])
    } else {
        dec_digits(c[0]) + seq![44u8] + byte_list(c.skip(1))
    }
}

/// The canonical frame for a kind and a content.
pub open spec fn spec_frame(t: Seq<u8>, c: Seq<u8>) -> Seq<u8> {
    frame_pre() + t + frame_mid() + byte_list(c) + frame_suf()
}

// ---------- the spec parser: the exact accepted grammar ----------

pub open spec fn is_digit(b: u8) -> bool {
    48 <= b <= 57
}

/// The position of the first quote at or after `i`.
pub open spec fn find_quote(b: Seq<u8>, i: int) -> Option<int>
    decreases b.len() - i when 0 <= i <= b.len()
{
    if i >= b.len() {
        None
    } else if b[i] == 34 {
        Some(i)
    } else {
        find_quote(b, i + 1)
    }
}

/// One canonical decimal number, at most three digits, no leading zeros,
/// value at most 255, maximal munch.
pub open spec fn parse_digits(b: Seq<u8>, i: int) -> Option<(u8, int)> {
    if 0 <= i < b.len() && is_digit(b[i]) {
        let d0 = (b[i] - 48) as int;
        if i + 1 < b.len() && is_digit(b[i + 1]) {
            if d0 == 0 {
                None
            } else {
                let d1 = (b[i + 1] - 48) as int;
                if i + 2 < b.len() && is_digit(b[i + 2]) {
                    let d2 = (b[i + 2] - 48) as int;
                    let v = 100 * d0 + 10 * d1 + d2;
                    if v <= 255 && !(i + 3 < b.len() && is_digit(b[i + 3])) {
                        Some(((v as u8), i + 3))
                    } else {
                        None
                    }
                } else {
                    Some((((10 * d0 + d1) as u8), i + 2))
                }
            }
        } else {
            Some(((d0 as u8), i + 1))
        }
    } else {
        None
    }
}

/// One or more numbers separated by commas, ending at a consumed `]`.
pub open spec fn parse_items(b: Seq<u8>, i: int) -> Option<(Seq<u8>, int)>
    decreases b.len() - i when 0 <= i <= b.len()
{
    if !(0 <= i <= b.len()) {
        None
    } else {
        match parse_digits(b, i) {
            None => None,
            Some((v, j)) => if j < b.len() && b[j] == 44 {
                match parse_items(b, j + 1) {
                    None => None,
                    Some((vs, k)) => Some((seq![v] + vs, k)),
                }
            } else if j < b.len() && b[j] == 93 {
                Some((seq![v], j + 1))
            } else {
                None
            },
        }
    }
}

/// The whole frame; `None` on anything that the emitter could not have
/// produced.
pub open spec fn spec_parse_frame(b: Seq<u8>) -> Option<(Seq<u8>, Seq<u8>)> {
    if b.len() < 6 || b.subrange(0, 6) != frame_pre() {
        None
    } else {
        match find_quote(b, 6) {
            None => None,
            Some(q) => {
                let t = b.subrange(6, q);
                if q + 7 > b.len() || b.subrange(q, q + 7) != frame_mid() {
                    None
                } else {
                    let i0 = q + 7;
                    if i0 < b.len() && b[i0] == 93 {
                        if i0 + 2 == b.len() && b[i0 + 1] == 125 {
                            Some((t, Seq::empty()))
                        } else {
                            None
                        }
                    } else {
                        match parse_items(b, i0) {
                            None => None,
                            Some((c, j)) => if j + 1 == b.len() && b[j] == 125 {
                                Some((t, c))
                            } else {
                                None
                            },
                        }
                    }
                }
            }
        }
    }
}

// ---------- the emitter ----------

proof fn lemma_byte_list_append(a: Seq<u8>, b: Seq<u8>)
    requires
        a.len() >= 1,
        b.len() >= 1,
    ensures
        byte_list(a + b) == byte_list(a) + seq![44u8] + byte_list(b),
    decreases a.len(),
{
    if a.len() == 1 {
        assert((a + b).len() >= 2);
        assert((a + b)[0] == a[0]);
        assert((a + b).skip(1) =~= b);
        assert(byte_list(a + b) == dec_digits(a[0]) + seq![44u8] + byte_list(b));
    } else {
        assert((a + b)[0] == a[0]);
        assert((a + b).skip(1) =~= a.skip(1) + b);
        lemma_byte_list_append(a.skip(1), b);
        assert(byte_list(a + b) =~= byte_list(a) + seq![44u8] + byte_list(b));
    }
}

fn emit_digits(out: &mut Vec<u8>, n: u8)
    ensures
        final(out)@ == old(out)@ + dec_digits(n),
{
    if n < 10 {
        out.push(48 + n);
    } else if n < 100 {
        out.push(48 + n / 10);
        out.push(48 + n % 10);
    } else {
        out.push(48 + n / 100);
        out.push(48 + (n / 10) % 10);
        out.push(48 + n % 10);
    }
    proof {
        assert(final(out)@ =~= old(out)@ + dec_digits(n));
    }
}

/// Produces the canonical frame for a kind and a content.
pub fn emit_frame(t: &[u8], c: &[u8]) -> (r: Vec<u8>)
    ensures
        r@ == spec_frame(t@, c@),
{
    let mut out: Vec<u8> = Vec::new();
    out.push(123);
    out.push(34);
    out.push(116);
    out.push(34);
    out.push(58);
    out.push(34);
    let mut tv = slice_to_vec(t);
    out.append(&mut tv);
    out.push(34);
    out.push(44);
    out.push(34);
    out.push(99);
    out.push(34);
    out.push(58);
    out.push(91);
    let ghost mid_mark = out@;
    proof {
        assert(mid_mark =~= frame_pre() + t@ + frame_mid());
    }
    let n = c.len();
    for idx in 0..n
        invariant
            n == c@.len(),
            out@ == mid_mark + byte_list(c@.take(idx as int)),
    {
        let ghost pre = out@;
        if idx > 0 {
            out.push(44);
        }
        emit_digits(&mut out, *slice_index_get(c, idx));
        proof {
            if idx == 0 {
                assert(c@.take(1) =~= seq![c@[0]]);
                assert(byte_list(c@.take(1)) == dec_digits(c@[0]));
                assert(out@ =~= mid_mark + byte_list(c@.take(idx + 1)));
            } else {
                assert(c@.take(idx + 1) =~= c@.take(idx as int) + seq![c@[idx as int]]);
                lemma_byte_list_append(c@.take(idx as int), seq![c@[idx as int]]);
                assert(byte_list(seq![c@[idx as int]]) == dec_digits(c@[idx as int]));
                assert(out@ =~= mid_mark + byte_list(c@.take(idx + 1)));
            }
        }
    }
    out.push(93);
    out.push(125);
    proof {
        assert(c@.take(n as int) =~= c@);
        assert(out@ =~= spec_frame(t@, c@));
    }
    out
}

// ---------- the emitted frame parses back ----------

proof fn lemma_find_quote_skip(b: Seq<u8>, i: int, j: int)
    requires
        0 <= i <= j <= b.len(),
        forall|k: int| i <= k < j ==> b[k] != 34u8,
    ensures
        find_quote(b, i) == find_quote(b, j),
    decreases j - i,
{
    if i < j {
        lemma_find_quote_skip(b, i + 1, j);
    }
}

proof fn lemma_parse_digits_image(b: Seq<u8>, i: int, v: u8)
    requires
        0 <= i,
        i + dec_digits(v).len() <= b.len(),
        b.subrange(i, i + dec_digits(v).len()) == dec_digits(v),
        i + dec_digits(v).len() == b.len() || !is_digit(b[i + dec_digits(v).len()]),
    ensures
        parse_digits(b, i) == Some((v, i + dec_digits(v).len())),
{
    let dl = dec_digits(v).len() as int;
    let s = b.subrange(i, i + dl);
    assert(s.len() == dl);
    assert(s[0] == b[i]);
    if dl >= 2 {
        assert(s[1] == b[i + 1]);
    }
    if dl >= 3 {
        assert(s[2] == b[i + 2]);
    }
    if v < 10 {
        assert(b[i] == 48 + v);
    } else if v < 100 {
        assert(b[i] == 48 + v / 10);
        assert(b[i + 1] == 48 + v % 10);
        assert(v / 10 >= 1);
        assert(10 * ((v as int) / 10) + (v as int) % 10 == v as int);
    } else {
        assert(b[i] == 48 + v / 100);
        assert(b[i + 1] == 48 + (v / 10) % 10);
        assert(b[i + 2] == 48 + v % 10);
        assert(v / 100 >= 1);
        assert((v as int) / 10 / 10 == (v as int) / 100) by {
            vstd::arithmetic::div_mod::lemma_div_denominator(v as int, 10, 10);
        }
        assert(10 * ((v as int) / 10) + (v as int) % 10 == v as int);
        assert(10 * (((v as int) / 10) / 10) + ((v as int) / 10) % 10 == (v as int) / 10);
        assert(100 * ((v as int) / 100) + 10 * (((v as int) / 10) % 10) + (v as int) % 10
            == v as int);
    }
}

proof fn lemma_dec_digits_shape(v: u8)
    ensures
        1 <= dec_digits(v).len() <= 3,
        is_digit(dec_digits(v)[0]),
        forall|k: int| 0 <= k < dec_digits(v).len() ==> is_digit(#[trigger] dec_digits(v)[k]),
{
}

proof fn lemma_parse_items_image(b: Seq<u8>, i: int, c: Seq<u8>)
    requires
        c.len() >= 1,
        0 <= i,
        i + byte_list(c).len() + 1 <= b.len(),
        b.subrange(i, i + byte_list(c).len()) == byte_list(c),
        b[i + byte_list(c).len()] == 93u8,
    ensures
        parse_items(b, i) == Some((c, i + byte_list(c).len() + 1)),
    decreases c.len(),
{
    let bl = byte_list(c);
    lemma_dec_digits_shape(c[0]);
    if c.len() == 1 {
        assert(bl == dec_digits(c[0]));
        lemma_parse_digits_image(b, i, c[0]);
        let j = i + dec_digits(c[0]).len();
        assert(b[j] == 93u8);
        assert(seq![c[0]] =~= c);
    } else {
        let head = dec_digits(c[0]);
        let rest = byte_list(c.skip(1));
        assert(bl == head + seq![44u8] + rest);
        crate::serial::lemma_subrange_split(b, i, head + seq![44u8], rest);
        crate::serial::lemma_subrange_split(b, i, head, seq![44u8]);
        assert(b.subrange(i, i + head.len()) =~= head);
        let j = i + head.len();
        assert(b.subrange(j, j + 1)[0] == 44u8);
        assert(b[j] == 44u8);
        lemma_parse_digits_image(b, i, c[0]);
        lemma_dec_digits_shape(c.skip(1)[0]);
        assert(rest[0] == dec_digits(c.skip(1)[0])[0]);
        lemma_parse_items_image(b, j + 1, c.skip(1));
        assert(seq![c[0]] + c.skip(1) =~= c);
    }
}

/// The canonical frame of any kind without a quote byte parses back to
/// exactly that kind and content.
#[verifier::spinoff_prover]
#[verifier::rlimit(60)]
pub proof fn lemma_parse_of_frame(t: Seq<u8>, c: Seq<u8>)
    requires
        frame_type_ok(t),
    ensures
        spec_parse_frame(spec_frame(t, c)) == Some((t, c)),
{
    let b = spec_frame(t, c);
    let bl = byte_list(c);
    let q = 6 + t.len() as int;
    let i0 = q + 7;
    assert(b.len() == i0 + bl.len() + 2);
    assert(b.subrange(0, 6) =~= frame_pre());
    assert forall|k: int| 6 <= k < q implies b[k] != 34u8 by {
        assert(b[k] == t[k - 6]);
    }
    assert(b[q] == frame_mid()[0]);
    lemma_find_quote_skip(b, 6, q);
    assert(find_quote(b, q) == Some(q));
    assert(b.subrange(6, q) =~= t);
    assert(b.subrange(q, q + 7) =~= frame_mid());
    if c.len() == 0 {
        assert(b[i0] == 93u8);
        assert(b[i0 + 1] == 125u8);
        assert(b.len() == i0 + 2);
    } else {
        lemma_dec_digits_shape(c[0]);
        assert(b[i0] == bl[0]);
        assert(bl[0] == dec_digits(c[0])[0]);
        assert(b[i0] != 93u8);
        assert(b.subrange(i0, i0 + bl.len()) =~= bl);
        assert(b[i0 + bl.len()] == 93u8);
        lemma_parse_items_image(b, i0, c);
        let j = i0 + bl.len() + 1;
        assert(b[j] == 125u8);
        assert(j + 1 == b.len());
    }
}

// ---------- the exec parser ----------

fn read_digits(b: &[u8], i: usize) -> (r: Option<(u8, usize)>)
    requires
        i <= b@.len(),
    ensures
        match r {
            Some((v, j)) => parse_digits(b@, i as int) == Some((v, j as int)),
            None => parse_digits(b@, i as int) is None,
        },
{
    if !(i < b.len() && 48 <= *slice_index_get(b, i) && *slice_index_get(b, i) <= 57) {
        return None;
    }
    let d0 = *slice_index_get(b, i) - 48;
    if i + 1 < b.len() && 48 <= *slice_index_get(b, i + 1) && *slice_index_get(b, i + 1) <= 57 {
        if d0 == 0 {
            return None;
        }
        let d1 = *slice_index_get(b, i + 1) - 48;
        if i + 2 < b.len() && 48 <= *slice_index_get(b, i + 2) && *slice_index_get(b, i + 2) <= 57 {
            let d2 = *slice_index_get(b, i + 2) - 48;
            let v: u32 = 100 * (d0 as u32) + 10 * (d1 as u32) + (d2 as u32);
            if v <= 255 && !(i + 3 < b.len() && 48 <= *slice_index_get(b, i + 3)
                && *slice_index_get(b, i + 3) <= 57) {
                Some((v as u8, i + 3))
            } else {
                None
            }
        } else {
            Some((10 * d0 + d1, i + 2))
        }
    } else {
        Some((d0, i + 1))
    }
}

/// Parses a canonical frame; `None` on anything else, exactly as
/// [`spec_parse_frame`] says.
pub fn parse_frame(b: &[u8]) -> (r: Option<ClientRequest>)
    ensures
        match r {
            Some(req) => spec_parse_frame(b@) == Some((req.request_type@, req.content@)),
            None => spec_parse_frame(b@) is None,
        },
{
    if b.len() < 6 {
        return None;
    }
    let pre_ok = *slice_index_get(b, 0) == 123 && *slice_index_get(b, 1) == 34 && *slice_index_get(
        b,
        2,
    ) == 116 && *slice_index_get(b, 3) == 34 && *slice_index_get(b, 4) == 58 && *slice_index_get(
        b,
        5,
    ) == 34;
    if !pre_ok {
        proof {
            if b@.subrange(0, 6) == frame_pre() {
                assert(b@[0] == frame_pre()[0]);
                assert(b@[1] == frame_pre()[1]);
                assert(b@[2] == frame_pre()[2]);
                assert(b@[3] == frame_pre()[3]);
                assert(b@[4] == frame_pre()[4]);
                assert(b@[5] == frame_pre()[5]);
            }
        }
        return None;
    }
    proof {
        assert(b@.subrange(0, 6) =~= frame_pre());
    }
    let mut q: usize = 6;
    while q < b.len() && *slice_index_get(b, q) != 34
        invariant
            6 <= q <= b@.len(),
            find_quote(b@, 6) == find_quote(b@, q as int),
        decreases b@.len() - q,
    {
        q = q + 1;
    }
    if q == b.len() {
        return None;
    }
    proof {
        assert(b@[q as int] == 34);
        assert(find_quote(b@, 6) == Some(q as int));
    }
    let t = slice_to_vec(slice_subrange(b, 6, q));
    if b.len() - q < 7 {
        return None;
    }
    let mid_ok = *slice_index_get(b, q + 1) == 44 && *slice_index_get(b, q + 2) == 34
        && *slice_index_get(b, q + 3) == 99 && *slice_index_get(b, q + 4) == 34 && *slice_index_get(
        b,
        q + 5,
    ) == 58 && *slice_index_get(b, q + 6) == 91;
    if !mid_ok {
        proof {
            if b@.subrange(q as int, q + 7) == frame_mid() {
                assert(b@[q + 1] == frame_mid()[1]);
                assert(b@[q + 2] == frame_mid()[2]);
                assert(b@[q + 3] == frame_mid()[3]);
                assert(b@[q + 4] == frame_mid()[4]);
                assert(b@[q + 5] == frame_mid()[5]);
                assert(b@[q + 6] == frame_mid()[6]);
            }
        }
        return None;
    }
    proof {
        assert(b@.subrange(q as int, q + 7) =~= frame_mid());
    }
    let i0 = q + 7;
    if i0 < b.len() && *slice_index_get(b, i0) == 93 {
        if b.len() - i0 == 2 && *slice_index_get(b, i0 + 1) == 125 {
            return Some(ClientRequest { request_type: t, content: Vec::new() });
        } else {
            return None;
        }
    }
    let mut acc: Vec<u8> = Vec::new();
    let mut cur = i0;
    loop
        invariant
            i0 <= cur <= b@.len(),
            i0 == q + 7,
            6 <= q < b@.len(),
            q + 7 <= b@.len(),
            b@.subrange(0, 6) == frame_pre(),
            find_quote(b@, 6) == Some(q as int),
            b@.subrange(q as int, q + 7) == frame_mid(),
            !(i0 < b@.len() && b@[i0 as int] == 93),
            t@ == b@.subrange(6, q as int),
            parse_items(b@, i0 as int) == (match parse_items(b@, cur as int) {
                Some((vs, k)) => Some((acc@ + vs, k)),
                None => None::<(Seq<u8>, int)>,
            }),
        decreases b@.len() - cur,
    {
        match read_digits(b, cur) {
            None => {
                return None;
            }
            Some((v, j)) => {
                let ghost pre_acc = acc@;
                let ghost pre_cur = cur as int;
                acc.push(v);
                if j < b.len() && *slice_index_get(b, j) == 44 {
                    cur = j + 1;
                    proof {
                        let res = parse_items(b@, cur as int);
                        assert(parse_items(b@, pre_cur) == (match res {
                            Some((vs, k)) => Some((seq![v] + vs, k)),
                            None => None::<(Seq<u8>, int)>,
                        }));
                        if res is Some {
                            let vs = res.unwrap().0;
                            assert(pre_acc + (seq![v] + vs) =~= acc@ + vs);
                        }
                    }
                } else if j < b.len() && *slice_index_get(b, j) == 93 {
                    proof {
                        assert(parse_items(b@, pre_cur) == Some((seq![v], j + 1)));
                        assert(pre_acc + seq![v] =~= acc@);
                        assert(parse_items(b@, i0 as int) == Some((acc@, j + 1)));
                    }
                    let end = j + 1;
                    if end < b.len() && *slice_index_get(b, end) == 125 && b.len() - end == 1 {
                        return Some(ClientRequest { request_type: t, content: acc });
                    } else {
                        return None;
                    }
                } else {
                    return None;
                }
            }
        }
    }
}

} // verus!
