//! Canonical binary serialization of [`Message`]: the plaintext that the
//! codec encrypts. Every field except `resource_id` is written; that field
//! is set by the server when a message is ingested from an endpoint, so it
//! never travels on the wire.
//!
//! Layout, little-endian throughout: a byte string is its 8-byte length
//! followed by its bytes; an option is a tag byte (0 or 1) followed by the
//! payload; an enum is a single tag byte; the error list is its 8-byte
//! count followed by the entries.

use vstd::prelude::*;
use vstd::bytes::*;
use vstd::slice::*;
use crate::message::{Data, Error, ErrorType, ErrorView, Message, MessageView, Metadata, Type};

verus! {

/// One past the largest length that the 8-byte prefixes can carry.
pub open spec fn len_limit() -> int {
    0x1_0000_0000_0000_0000
}

/// The lengths in `m` all fit their 8-byte prefixes. Every message whose
/// fields live in real vectors satisfies this.
pub open spec fn wire_wf(m: MessageView) -> bool {
    &&& m.id.len() < len_limit()
    &&& (match m.server_id {
        Some(sid) => sid.len() < len_limit(),
        None => true,
    })
    &&& m.errors.len() < len_limit()
    &&& (forall|i: int|
        0 <= i < m.errors.len() ==> #[trigger] m.errors[i].error_message.len() < len_limit())
}

/// `m` with its transport-set field cleared: what travels on the wire.
pub open spec fn wire_of(m: MessageView) -> MessageView {
    MessageView { resource_id: None, ..m }
}

pub open spec fn ser_bytes(b: Seq<u8>) -> Seq<u8> {
    spec_u64_to_le_bytes(b.len() as u64) + b
}

pub open spec fn ser_opt_bytes(o: Option<Seq<u8>>) -> Seq<u8> {
    match o {
        None => seq![0u8],
        Some(b) => seq![1u8] + ser_bytes(b),
    }
}

pub open spec fn type_tag(t: Type) -> u8 {
    match t {
        Type::Init => 0,
        Type::Connect => 1,
        Type::Disconnect => 2,
        Type::Ping => 3,
        Type::Pong => 4,
        Type::Test => 5,
        Type::Resume => 6,
        Type::Pause => 7,
        Type::Error => 8,
    }
}

pub open spec fn data_tag(d: Data) -> u8 {
    match d {
        Data::Empty => 0,
        Data::Ping => 1,
        Data::Pong => 2,
    }
}

pub open spec fn metadata_tag(m: Metadata) -> u8 {
    match m {
        Metadata::Empty => 0,
    }
}

pub open spec fn error_type_tag(e: ErrorType) -> u8 {
    match e {
        ErrorType::Code => 0,
        ErrorType::Message => 1,
    }
}

pub open spec fn ser_error(e: ErrorView) -> Seq<u8> {
    seq![error_type_tag(e.error_type)] + ser_bytes(e.error_message)
}

pub open spec fn ser_error_list(es: Seq<ErrorView>) -> Seq<u8>
    decreases es.len(),
{
    if es.len() == 0 {
        Seq::empty()
    } else {
        ser_error(es[0]) + ser_error_list(es.skip(1))
    }
}

/// The canonical serialization of a message; `resource_id` is not written.
pub open spec fn spec_ser_message(m: MessageView) -> Seq<u8> {
    ser_bytes(m.id) + seq![type_tag(m.message_type)] + ser_opt_bytes(m.server_id)
        + seq![data_tag(m.data)] + seq![metadata_tag(m.metadata)]
        + spec_u64_to_le_bytes(m.errors.len() as u64) + ser_error_list(m.errors)
}

proof fn lemma_ser_error_list_append(es1: Seq<ErrorView>, es2: Seq<ErrorView>)
    ensures
        ser_error_list(es1 + es2) == ser_error_list(es1) + ser_error_list(es2),
    decreases es1.len(),
{
    if es1.len() == 0 {
        assert(es1 + es2 =~= es2);
        assert(ser_error_list(es1) + ser_error_list(es2) =~= ser_error_list(es2));
    } else {
        assert((es1 + es2).skip(1) =~= es1.skip(1) + es2);
        lemma_ser_error_list_append(es1.skip(1), es2);
        assert(ser_error_list(es1 + es2) =~= ser_error_list(es1) + ser_error_list(es2));
    }
}

proof fn lemma_ser_error_list_snoc(es: Seq<ErrorView>, i: int)
    requires
        0 <= i < es.len(),
    ensures
        ser_error_list(es.take(i + 1)) == ser_error_list(es.take(i)) + ser_error(es[i]),
{
    assert(es.take(i + 1) =~= es.take(i) + seq![es[i]]);
    lemma_ser_error_list_append(es.take(i), seq![es[i]]);
    reveal_with_fuel(ser_error_list, 2);
    assert(seq![es[i]].skip(1) =~= Seq::<ErrorView>::empty());
    assert(ser_error_list(seq![es[i]]) =~= ser_error(es[i]));
}

fn type_tag_of(t: Type) -> (r: u8)
    ensures
        r == type_tag(t),
{
    match t {
        Type::Init => 0,
        Type::Connect => 1,
        Type::Disconnect => 2,
        Type::Ping => 3,
        Type::Pong => 4,
        Type::Test => 5,
        Type::Resume => 6,
        Type::Pause => 7,
        Type::Error => 8,
    }
}

fn data_tag_of(d: Data) -> (r: u8)
    ensures
        r == data_tag(d),
{
    match d {
        Data::Empty => 0,
        Data::Ping => 1,
        Data::Pong => 2,
    }
}

fn metadata_tag_of(m: Metadata) -> (r: u8)
    ensures
        r == metadata_tag(m),
{
    match m {
        Metadata::Empty => 0,
    }
}

fn error_type_tag_of(e: ErrorType) -> (r: u8)
    ensures
        r == error_type_tag(e),
{
    match e {
        ErrorType::Code => 0,
        ErrorType::Message => 1,
    }
}

// ---------- parsing specs ----------

pub open spec fn parse_u64(b: Seq<u8>, i: int) -> Option<(u64, int)> {
    if 0 <= i && i + 8 <= b.len() {
        Some((spec_u64_from_le_bytes(b.subrange(i, i + 8)), i + 8))
    } else {
        None
    }
}

pub open spec fn parse_byte(b: Seq<u8>, i: int) -> Option<(u8, int)> {
    if 0 <= i && i < b.len() {
        Some((b[i], i + 1))
    } else {
        None
    }
}

pub open spec fn parse_bytes(b: Seq<u8>, i: int) -> Option<(Seq<u8>, int)> {
    match parse_u64(b, i) {
        None => None,
        Some((n, j)) => if j + n <= b.len() {
            Some((b.subrange(j, j + n), j + n))
        } else {
            None
        },
    }
}

pub open spec fn parse_opt_bytes(b: Seq<u8>, i: int) -> Option<(Option<Seq<u8>>, int)> {
    match parse_byte(b, i) {
        None => None,
        Some((tag, j)) => if tag == 0 {
            Some((None, j))
        } else if tag == 1 {
            match parse_bytes(b, j) {
                None => None,
                Some((v, k)) => Some((Some(v), k)),
            }
        } else {
            None
        },
    }
}

pub open spec fn tag_to_type(v: u8) -> Option<Type> {
    if v == 0 {
        Some(Type::Init)
    } else if v == 1 {
        Some(Type::Connect)
    } else if v == 2 {
        Some(Type::Disconnect)
    } else if v == 3 {
        Some(Type::Ping)
    } else if v == 4 {
        Some(Type::Pong)
    } else if v == 5 {
        Some(Type::Test)
    } else if v == 6 {
        Some(Type::Resume)
    } else if v == 7 {
        Some(Type::Pause)
    } else if v == 8 {
        Some(Type::Error)
    } else {
        None
    }
}

pub open spec fn tag_to_data(v: u8) -> Option<Data> {
    if v == 0 {
        Some(Data::Empty)
    } else if v == 1 {
        Some(Data::Ping)
    } else if v == 2 {
        Some(Data::Pong)
    } else {
        None
    }
}

pub open spec fn tag_to_metadata(v: u8) -> Option<Metadata> {
    if v == 0 {
        Some(Metadata::Empty)
    } else {
        None
    }
}

pub open spec fn tag_to_error_type(v: u8) -> Option<ErrorType> {
    if v == 0 {
        Some(ErrorType::Code)
    } else if v == 1 {
        Some(ErrorType::Message)
    } else {
        None
    }
}

pub open spec fn parse_error(b: Seq<u8>, i: int) -> Option<(ErrorView, int)> {
    match parse_byte(b, i) {
        None => None,
        Some((tag, j)) => match tag_to_error_type(tag) {
            None => None,
            Some(et) => match parse_bytes(b, j) {
                None => None,
                Some((msg, k)) => Some((ErrorView { error_type: et, error_message: msg }, k)),
            },
        },
    }
}

pub open spec fn parse_error_list(b: Seq<u8>, i: int, n: u64) -> Option<(Seq<ErrorView>, int)>
    decreases n,
{
    if n == 0 {
        Some((Seq::empty(), i))
    } else {
        match parse_error(b, i) {
            None => None,
            Some((e, j)) => match parse_error_list(b, j, (n - 1) as u64) {
                None => None,
                Some((es, k)) => Some((seq![e] + es, k)),
            },
        }
    }
}

pub open spec fn parse_message_fields(b: Seq<u8>, i: int) -> Option<(MessageView, int)> {
    match parse_bytes(b, i) {
        None => None,
        Some((id, i1)) => match parse_byte(b, i1) {
            None => None,
            Some((tt, i2)) => match tag_to_type(tt) {
                None => None,
                Some(message_type) => match parse_opt_bytes(b, i2) {
                    None => None,
                    Some((server_id, i3)) => match parse_byte(b, i3) {
                        None => None,
                        Some((dt, i4)) => match tag_to_data(dt) {
                            None => None,
                            Some(data) => match parse_byte(b, i4) {
                                None => None,
                                Some((mt, i5)) => match tag_to_metadata(mt) {
                                    None => None,
                                    Some(metadata) => match parse_u64(b, i5) {
                                        None => None,
                                        Some((n, i6)) => match parse_error_list(b, i6, n) {
                                            None => None,
                                            Some((errors, i7)) => Some((
                                                MessageView {
                                                    id,
                                                    message_type,
                                                    server_id,
                                                    resource_id: None,
                                                    data,
                                                    metadata,
                                                    errors,
                                                },
                                                i7,
                                            )),
                                        },
                                    },
                                },
                            },
                        },
                    },
                },
            },
        },
    }
}

/// The canonical deserialization: succeeds exactly on full, well-formed
/// serializations and returns the message they carry, with `resource_id`
/// cleared.
pub open spec fn spec_parse_message(b: Seq<u8>) -> Option<MessageView> {
    match parse_message_fields(b, 0) {
        None => None,
        Some((m, j)) => if j == b.len() {
            Some(m)
        } else {
            None
        },
    }
}

/// Appends a length-prefixed byte string.
fn push_bytes(out: &mut Vec<u8>, b: &[u8])
    ensures
        final(out)@ == old(out)@ + ser_bytes(b@),
{
    let mut len_bytes = u64_to_le_bytes(b.len() as u64);
    out.append(&mut len_bytes);
    let mut content = slice_to_vec(b);
    out.append(&mut content);
    proof {
        assert(final(out)@ =~= old(out)@ + ser_bytes(b@));
    }
}

/// Produces the canonical serialization of `m`.
pub fn serialize_message(m: &Message) -> (r: Vec<u8>)
    ensures
        r@ == spec_ser_message(m@),
{
    let mut out: Vec<u8> = Vec::new();
    push_bytes(&mut out, m.id.as_slice());
    out.push(type_tag_of(m.message_type));
    match &m.server_id {
        None => out.push(0),
        Some(sid) => {
            out.push(1);
            push_bytes(&mut out, sid.as_slice());
        }
    }
    out.push(data_tag_of(m.data));
    out.push(metadata_tag_of(m.metadata));
    let ghost head = out@;
    let mut count_bytes = u64_to_le_bytes(m.errors.len() as u64);
    out.append(&mut count_bytes);
    let ghost mid = out@;
    let n = m.errors.len();
    for i in 0..n
        invariant
            n == m.errors.len(),
            mid == head + spec_u64_to_le_bytes(m@.errors.len() as u64),
            m@.errors.len() == n,
            out@ == mid + ser_error_list(m@.errors.take(i as int)),
    {
        let e = &m.errors[i];
        out.push(error_type_tag_of(e.error_type));
        push_bytes(&mut out, e.error_message.as_slice());
        proof {
            assert(m@.errors[i as int] == m.errors@[i as int]@);
            lemma_ser_error_list_snoc(m@.errors, i as int);
            assert(out@ =~= mid + ser_error_list(m@.errors.take(i + 1)));
        }
    }
    proof {
        assert(m@.errors.take(n as int) =~= m@.errors);
        assert(out@ =~= spec_ser_message(m@));
    }
    out
}

/// Every message held in real vectors is within the length prefixes.
pub proof fn lemma_message_wire_wf(m: &Message)
    ensures
        wire_wf(m@),
{
    broadcast use vstd::std_specs::vec::axiom_spec_len;

    assert(vstd::std_specs::vec::spec_vec_len(&m.id) == m.id@.len());
    match m.server_id {
        Some(ref sid) => {
            assert(vstd::std_specs::vec::spec_vec_len(sid) == sid@.len());
        }
        None => {}
    }
    assert(vstd::std_specs::vec::spec_vec_len(&m.errors) == m.errors@.len());
    assert forall|i: int| 0 <= i < m@.errors.len() implies #[trigger] m@.errors[i].error_message.len()
        < len_limit() by {
        assert(m@.errors[i] == m.errors@[i]@);
        assert(vstd::std_specs::vec::spec_vec_len(&m.errors@[i].error_message)
            == m.errors@[i].error_message@.len());
    }
}

// ---------- round-trip lemmas ----------

pub(crate) proof fn lemma_subrange_split(b: Seq<u8>, i: int, s1: Seq<u8>, s2: Seq<u8>)
    requires
        0 <= i,
        i + s1.len() + s2.len() <= b.len(),
        b.subrange(i, i + s1.len() + s2.len()) == s1 + s2,
    ensures
        b.subrange(i, i + s1.len()) == s1,
        b.subrange(i + s1.len(), i + s1.len() + s2.len()) == s2,
{
    let whole = b.subrange(i, i + s1.len() + s2.len());
    assert forall|k: int| 0 <= k < s1.len() implies b.subrange(i, i + s1.len())[k] == s1[k] by {
        assert(whole[k] == (s1 + s2)[k]);
    }
    assert(b.subrange(i, i + s1.len()) =~= s1);
    assert forall|k: int| 0 <= k < s2.len() implies b.subrange(
        i + s1.len(),
        i + s1.len() + s2.len(),
    )[k] == s2[k] by {
        assert(whole[s1.len() + k] == (s1 + s2)[s1.len() + k]);
    }
    assert(b.subrange(i + s1.len(), i + s1.len() + s2.len()) =~= s2);
}

proof fn lemma_subrange_join(b: Seq<u8>, i: int, j: int, k: int)
    requires
        0 <= i <= j <= k <= b.len(),
    ensures
        b.subrange(i, k) == b.subrange(i, j) + b.subrange(j, k),
{
    assert(b.subrange(i, k) =~= b.subrange(i, j) + b.subrange(j, k));
}

proof fn lemma_parse_u64_image(b: Seq<u8>, i: int, x: u64)
    requires
        0 <= i,
        i + 8 <= b.len(),
        b.subrange(i, i + 8) == spec_u64_to_le_bytes(x),
    ensures
        parse_u64(b, i) == Some((x, i + 8)),
{
    lemma_auto_spec_u64_to_from_le_bytes();
}

proof fn lemma_parse_bytes_image(b: Seq<u8>, i: int, v: Seq<u8>)
    requires
        0 <= i,
        v.len() < len_limit(),
        i + 8 + v.len() <= b.len(),
        b.subrange(i, i + 8 + v.len()) == ser_bytes(v),
    ensures
        parse_bytes(b, i) == Some((v, i + 8 + v.len())),
{
    lemma_auto_spec_u64_to_from_le_bytes();
    let lenb = spec_u64_to_le_bytes(v.len() as u64);
    assert(lenb.len() == 8);
    lemma_subrange_split(b, i, lenb, v);
    lemma_parse_u64_image(b, i, v.len() as u64);
    assert(parse_u64(b, i) == Some((v.len() as u64, i + 8)));
    assert(b.subrange(i + 8, i + 8 + v.len()) == v);
}

proof fn lemma_parse_byte_image(b: Seq<u8>, i: int, t: u8)
    requires
        0 <= i,
        i + 1 <= b.len(),
        b.subrange(i, i + 1) == seq![t],
    ensures
        parse_byte(b, i) == Some((t, i + 1)),
{
    assert(b.subrange(i, i + 1)[0] == t);
}

proof fn lemma_parse_error_image(b: Seq<u8>, i: int, e: ErrorView)
    requires
        0 <= i,
        e.error_message.len() < len_limit(),
        i + ser_error(e).len() <= b.len(),
        b.subrange(i, i + ser_error(e).len()) == ser_error(e),
    ensures
        parse_error(b, i) == Some((e, i + ser_error(e).len())),
        ser_error(e).len() == 9 + e.error_message.len(),
{
    lemma_auto_spec_u64_to_from_le_bytes();
    let tagb = seq![error_type_tag(e.error_type)];
    let msgb = ser_bytes(e.error_message);
    assert(msgb.len() == 8 + e.error_message.len());
    assert(ser_error(e).len() == 1 + msgb.len());
    lemma_subrange_split(b, i, tagb, msgb);
    lemma_parse_byte_image(b, i, error_type_tag(e.error_type));
    assert(tag_to_error_type(error_type_tag(e.error_type)) == Some(e.error_type));
    lemma_parse_bytes_image(b, i + 1, e.error_message);
}

proof fn lemma_parse_error_list_image(b: Seq<u8>, i: int, es: Seq<ErrorView>)
    requires
        0 <= i,
        es.len() < len_limit(),
        forall|k: int| 0 <= k < es.len() ==> #[trigger] es[k].error_message.len() < len_limit(),
        i + ser_error_list(es).len() <= b.len(),
        b.subrange(i, i + ser_error_list(es).len()) == ser_error_list(es),
    ensures
        parse_error_list(b, i, es.len() as u64) == Some((es, i + ser_error_list(es).len())),
    decreases es.len(),
{
    if es.len() == 0 {
        assert(es =~= Seq::<ErrorView>::empty());
    } else {
        let head = ser_error(es[0]);
        let tail = ser_error_list(es.skip(1));
        lemma_subrange_split(b, i, head, tail);
        lemma_parse_error_image(b, i, es[0]);
        lemma_parse_error_list_image(b, i + head.len(), es.skip(1));
        assert((es.len() as u64 - 1) as u64 == es.skip(1).len() as u64);
        assert(seq![es[0]] + es.skip(1) =~= es);
    }
}

/// Parsing inverts serialization: the canonical bytes of a message parse
/// back to exactly that message, with its transport-set field cleared.
#[verifier::spinoff_prover]
#[verifier::rlimit(60)]
pub proof fn lemma_parse_of_ser(m: MessageView)
    requires
        wire_wf(m),
    ensures
        spec_parse_message(spec_ser_message(m)) == Some(wire_of(m)),
{
    let b = spec_ser_message(m);
    let s1 = ser_bytes(m.id);
    let s2 = seq![type_tag(m.message_type)];
    let s3 = ser_opt_bytes(m.server_id);
    let s4 = seq![data_tag(m.data)];
    let s5 = seq![metadata_tag(m.metadata)];
    let s6 = spec_u64_to_le_bytes(m.errors.len() as u64);
    let s7 = ser_error_list(m.errors);
    lemma_auto_spec_u64_to_from_le_bytes();
    assert(s6.len() == 8);
    let i1 = s1.len() as int;
    let i2 = i1 + 1;
    let i3 = i2 + s3.len();
    let i4 = i3 + 1;
    let i5 = i4 + 1;
    let i6 = i5 + 8;
    let i7 = i6 + s7.len();
    assert(b.len() == i7);
    assert(b.subrange(0, i7) =~= b);
    assert(b.subrange(0, i7) =~= s1 + (s2 + (s3 + (s4 + (s5 + (s6 + s7))))));
    lemma_subrange_split(b, 0, s1, s2 + (s3 + (s4 + (s5 + (s6 + s7)))));
    lemma_subrange_split(b, i1, s2, s3 + (s4 + (s5 + (s6 + s7))));
    lemma_subrange_split(b, i2, s3, s4 + (s5 + (s6 + s7)));
    lemma_subrange_split(b, i3, s4, s5 + (s6 + s7));
    lemma_subrange_split(b, i4, s5, s6 + s7);
    lemma_subrange_split(b, i5, s6, s7);
    lemma_parse_bytes_image(b, 0, m.id);
    lemma_parse_byte_image(b, i1, type_tag(m.message_type));
    assert(tag_to_type(type_tag(m.message_type)) == Some(m.message_type));
    match m.server_id {
        None => {
            assert(s3 =~= seq![0u8]);
            lemma_parse_byte_image(b, i2, 0);
            assert(parse_opt_bytes(b, i2) == Some((None::<Seq<u8>>, i3)));
        }
        Some(sid) => {
            lemma_subrange_split(b, i2, seq![1u8], ser_bytes(sid));
            lemma_parse_byte_image(b, i2, 1);
            lemma_parse_bytes_image(b, i2 + 1, sid);
            assert(parse_opt_bytes(b, i2) == Some((Some(sid), i3)));
        }
    }
    lemma_parse_byte_image(b, i3, data_tag(m.data));
    assert(tag_to_data(data_tag(m.data)) == Some(m.data));
    lemma_parse_byte_image(b, i4, metadata_tag(m.metadata));
    assert(tag_to_metadata(metadata_tag(m.metadata)) == Some(m.metadata));
    lemma_parse_u64_image(b, i5, m.errors.len() as u64);
    lemma_parse_error_list_image(b, i6, m.errors);
    assert(parse_message_fields(b, 0) == Some((wire_of(m), i7)));
}

proof fn lemma_parse_u64_canon(b: Seq<u8>, i: int)
    requires
        parse_u64(b, i) is Some,
    ensures
        ({
            let (v, j) = parse_u64(b, i).unwrap();
            &&& 0 <= i
            &&& j == i + 8 <= b.len()
            &&& b.subrange(i, j) == spec_u64_to_le_bytes(v)
        }),
{
    lemma_auto_spec_u64_to_from_le_bytes();
    let (v, j) = parse_u64(b, i).unwrap();
    assert(spec_u64_to_le_bytes(spec_u64_from_le_bytes(b.subrange(i, i + 8))) == b.subrange(
        i,
        i + 8,
    ));
}

proof fn lemma_parse_bytes_canon(b: Seq<u8>, i: int)
    requires
        parse_bytes(b, i) is Some,
    ensures
        ({
            let (v, j) = parse_bytes(b, i).unwrap();
            &&& 0 <= i <= j <= b.len()
            &&& j == i + 8 + v.len()
            &&& v.len() < len_limit()
            &&& b.subrange(i, j) == ser_bytes(v)
        }),
{
    lemma_parse_u64_canon(b, i);
    let (n, j0) = parse_u64(b, i).unwrap();
    let (v, j) = parse_bytes(b, i).unwrap();
    assert(v.len() == n as int);
    assert(v.len() as u64 == n);
    lemma_subrange_join(b, i, j0, j);
    assert(b.subrange(i, j) == spec_u64_to_le_bytes(n) + v);
}

proof fn lemma_parse_byte_canon(b: Seq<u8>, i: int)
    requires
        parse_byte(b, i) is Some,
    ensures
        ({
            let (t, j) = parse_byte(b, i).unwrap();
            &&& 0 <= i < b.len()
            &&& j == i + 1
            &&& b.subrange(i, j) == seq![t]
        }),
{
    let (t, j) = parse_byte(b, i).unwrap();
    assert(b.subrange(i, i + 1) =~= seq![t]);
}

proof fn lemma_parse_error_canon(b: Seq<u8>, i: int)
    requires
        parse_error(b, i) is Some,
    ensures
        ({
            let (e, j) = parse_error(b, i).unwrap();
            &&& 0 <= i <= j <= b.len()
            &&& j == i + ser_error(e).len()
            &&& e.error_message.len() < len_limit()
            &&& b.subrange(i, j) == ser_error(e)
        }),
{
    lemma_parse_byte_canon(b, i);
    let (tag, j0) = parse_byte(b, i).unwrap();
    let (e, j) = parse_error(b, i).unwrap();
    assert(error_type_tag(e.error_type) == tag);
    lemma_parse_bytes_canon(b, j0);
    lemma_subrange_join(b, i, j0, j);
    assert(b.subrange(i, j) == seq![tag] + ser_bytes(e.error_message));
}

proof fn lemma_parse_error_list_canon(b: Seq<u8>, i: int, n: u64)
    requires
        0 <= i <= b.len(),
        parse_error_list(b, i, n) is Some,
    ensures
        ({
            let (es, j) = parse_error_list(b, i, n).unwrap();
            &&& es.len() == n
            &&& i <= j <= b.len()
            &&& j == i + ser_error_list(es).len()
            &&& (forall|k: int|
                0 <= k < es.len() ==> #[trigger] es[k].error_message.len() < len_limit())
            &&& b.subrange(i, j) == ser_error_list(es)
        }),
    decreases n,
{
    if n == 0 {
        let (es, j) = parse_error_list(b, i, n).unwrap();
        assert(es =~= Seq::<ErrorView>::empty());
        assert(b.subrange(i, i) =~= ser_error_list(es));
    } else {
        lemma_parse_error_canon(b, i);
        let (e, j0) = parse_error(b, i).unwrap();
        lemma_parse_error_list_canon(b, j0, (n - 1) as u64);
        let (tail, j) = parse_error_list(b, j0, (n - 1) as u64).unwrap();
        let (es, j1) = parse_error_list(b, i, n).unwrap();
        assert(es == seq![e] + tail);
        assert(es.skip(1) =~= tail);
        assert(es[0] == e);
        lemma_subrange_join(b, i, j0, j);
        assert(b.subrange(i, j) == ser_error(e) + ser_error_list(tail));
    }
}

/// Parsing is exact: whatever parses came from the canonical serialization
/// of the parsed message, which carries no transport-set field.
#[verifier::spinoff_prover]
#[verifier::rlimit(60)]
pub proof fn lemma_ser_of_parse(b: Seq<u8>)
    requires
        spec_parse_message(b) is Some,
    ensures
        ({
            let m = spec_parse_message(b).unwrap();
            &&& wire_wf(m)
            &&& m.resource_id is None
            &&& b == spec_ser_message(m)
        }),
{
    let m = spec_parse_message(b).unwrap();
    lemma_parse_bytes_canon(b, 0);
    let (id, i1) = parse_bytes(b, 0).unwrap();
    lemma_parse_byte_canon(b, i1);
    let (tt, i2) = parse_byte(b, i1).unwrap();
    assert(type_tag(m.message_type) == tt);
    lemma_parse_byte_canon(b, i2);
    let (otag, i2a) = parse_byte(b, i2).unwrap();
    let (sid, i3) = parse_opt_bytes(b, i2).unwrap();
    if otag == 1 {
        lemma_parse_bytes_canon(b, i2a);
        lemma_subrange_join(b, i2, i2a, i3);
        assert(b.subrange(i2, i3) == seq![1u8] + ser_bytes(sid.unwrap()));
        assert(b.subrange(i2, i3) =~= ser_opt_bytes(sid));
    } else {
        assert(b.subrange(i2, i3) =~= ser_opt_bytes(sid));
    }
    lemma_parse_byte_canon(b, i3);
    let (dt, i4) = parse_byte(b, i3).unwrap();
    assert(data_tag(m.data) == dt);
    lemma_parse_byte_canon(b, i4);
    let (mt, i5) = parse_byte(b, i4).unwrap();
    assert(metadata_tag(m.metadata) == mt);
    lemma_parse_u64_canon(b, i5);
    let (n, i6) = parse_u64(b, i5).unwrap();
    lemma_parse_error_list_canon(b, i6, n);
    let (errors, i7) = parse_error_list(b, i6, n).unwrap();
    assert(m.errors == errors);
    assert(m.errors.len() as u64 == n);
    assert(i7 == b.len());
    lemma_subrange_join(b, 0, i1, i2);
    lemma_subrange_join(b, 0, i2, i3);
    lemma_subrange_join(b, 0, i3, i4);
    lemma_subrange_join(b, 0, i4, i5);
    lemma_subrange_join(b, 0, i5, i6);
    lemma_subrange_join(b, 0, i6, i7);
    assert(b.subrange(0, i7) =~= b);
    assert(b =~= spec_ser_message(m));
}

// ---------- the exec parser ----------

fn read_u64(b: &[u8], i: usize) -> (r: Option<(u64, usize)>)
    requires
        i <= b@.len(),
    ensures
        match r {
            Some((v, j)) => parse_u64(b@, i as int) == Some((v, j as int)),
            None => parse_u64(b@, i as int) is None,
        },
{
    if b.len() - i >= 8 {
        let s = slice_subrange(b, i, i + 8);
        let v = u64_from_le_bytes(s);
        Some((v, i + 8))
    } else {
        None
    }
}

fn read_byte(b: &[u8], i: usize) -> (r: Option<(u8, usize)>)
    requires
        i <= b@.len(),
    ensures
        match r {
            Some((v, j)) => parse_byte(b@, i as int) == Some((v, j as int)),
            None => parse_byte(b@, i as int) is None,
        },
{
    if i < b.len() {
        Some((*slice_index_get(b, i), i + 1))
    } else {
        None
    }
}

fn read_bytes(b: &[u8], i: usize) -> (r: Option<(Vec<u8>, usize)>)
    requires
        i <= b@.len(),
    ensures
        match r {
            Some((v, j)) => parse_bytes(b@, i as int) == Some((v@, j as int)),
            None => parse_bytes(b@, i as int) is None,
        },
{
    match read_u64(b, i) {
        None => None,
        Some((n, j)) => {
            if n <= (b.len() - j) as u64 {
                let n_us = n as usize;
                let v = slice_to_vec(slice_subrange(b, j, j + n_us));
                Some((v, j + n_us))
            } else {
                None
            }
        }
    }
}

fn read_opt_bytes(b: &[u8], i: usize) -> (r: Option<(Option<Vec<u8>>, usize)>)
    requires
        i <= b@.len(),
    ensures
        match r {
            Some((v, j)) => parse_opt_bytes(b@, i as int) matches Some((sv, sj)) && sj == j as int
                && (match v {
                Some(ref vv) => sv == Some(vv@),
                None => sv is None,
            }),
            None => parse_opt_bytes(b@, i as int) is None,
        },
{
    match read_byte(b, i) {
        None => None,
        Some((tag, j)) => {
            if tag == 0 {
                Some((None, j))
            } else if tag == 1 {
                match read_bytes(b, j) {
                    None => None,
                    Some((v, k)) => Some((Some(v), k)),
                }
            } else {
                None
            }
        }
    }
}

fn type_of_tag(v: u8) -> (r: Option<Type>)
    ensures
        r == tag_to_type(v),
{
    if v == 0 {
        Some(Type::Init)
    } else if v == 1 {
        Some(Type::Connect)
    } else if v == 2 {
        Some(Type::Disconnect)
    } else if v == 3 {
        Some(Type::Ping)
    } else if v == 4 {
        Some(Type::Pong)
    } else if v == 5 {
        Some(Type::Test)
    } else if v == 6 {
        Some(Type::Resume)
    } else if v == 7 {
        Some(Type::Pause)
    } else if v == 8 {
        Some(Type::Error)
    } else {
        None
    }
}

fn data_of_tag(v: u8) -> (r: Option<Data>)
    ensures
        r == tag_to_data(v),
{
    if v == 0 {
        Some(Data::Empty)
    } else if v == 1 {
        Some(Data::Ping)
    } else if v == 2 {
        Some(Data::Pong)
    } else {
        None
    }
}

fn metadata_of_tag(v: u8) -> (r: Option<Metadata>)
    ensures
        r == tag_to_metadata(v),
{
    if v == 0 {
        Some(Metadata::Empty)
    } else {
        None
    }
}

fn error_type_of_tag(v: u8) -> (r: Option<ErrorType>)
    ensures
        r == tag_to_error_type(v),
{
    if v == 0 {
        Some(ErrorType::Code)
    } else if v == 1 {
        Some(ErrorType::Message)
    } else {
        None
    }
}

fn read_error(b: &[u8], i: usize) -> (r: Option<(Error, usize)>)
    requires
        i <= b@.len(),
    ensures
        match r {
            Some((e, j)) => parse_error(b@, i as int) == Some((e@, j as int)),
            None => parse_error(b@, i as int) is None,
        },
{
    match read_byte(b, i) {
        None => None,
        Some((tag, j)) => match error_type_of_tag(tag) {
            None => None,
            Some(et) => match read_bytes(b, j) {
                None => None,
                Some((msg, k)) => Some((Error { error_type: et, error_message: msg }, k)),
            },
        },
    }
}

/// The views of a vector of error entries.
pub open spec fn errs_view(s: Seq<Error>) -> Seq<ErrorView> {
    Seq::new(s.len(), |i: int| s[i]@)
}

fn read_error_list(b: &[u8], i: usize, n: u64) -> (r: Option<(Vec<Error>, usize)>)
    requires
        i <= b@.len(),
    ensures
        match r {
            Some((es, j)) => parse_error_list(b@, i as int, n) == Some((errs_view(es@), j as int)),
            None => parse_error_list(b@, i as int, n) is None,
        },
{
    let mut acc: Vec<Error> = Vec::new();
    let mut cur = i;
    let mut k: u64 = 0;
    proof {
        let res0 = parse_error_list(b@, i as int, n);
        if res0 is Some {
            assert(errs_view(acc@) + res0.unwrap().0 =~= res0.unwrap().0);
        }
    }
    loop
        invariant
            k <= n,
            i <= cur <= b@.len(),
            acc@.len() == k,
            parse_error_list(b@, i as int, n) == (match parse_error_list(
                b@,
                cur as int,
                (n - k) as u64,
            ) {
                Some((rest, end)) => Some((errs_view(acc@) + rest, end)),
                None => None::<(Seq<ErrorView>, int)>,
            }),
        decreases n - k,
    {
        if k == n {
            proof {
                assert(parse_error_list(b@, cur as int, 0) == Some((
                    Seq::<ErrorView>::empty(),
                    cur as int,
                )));
                assert(errs_view(acc@) + Seq::<ErrorView>::empty() =~= errs_view(acc@));
            }
            return Some((acc, cur));
        }
        match read_error(b, cur) {
            None => {
                return None;
            }
            Some((e, j)) => {
                let ghost pre_acc = acc@;
                let ghost pre_cur = cur as int;
                let ghost m_old = (n - k) as u64;
                acc.push(e);
                cur = j;
                k = k + 1;
                proof {
                    let res = parse_error_list(b@, cur as int, (n - k) as u64);
                    assert(parse_error_list(b@, pre_cur, m_old) == (match res {
                        Some((rest, end)) => Some((seq![e@] + rest, end)),
                        None => None::<(Seq<ErrorView>, int)>,
                    }));
                    if res is Some {
                        let rest = res.unwrap().0;
                        assert(errs_view(pre_acc) + (seq![e@] + rest) =~= errs_view(acc@) + rest);
                    }
                }
            }
        }
    }
}

/// Parses the canonical serialization; `None` on anything else.
pub fn parse_message(b: &[u8]) -> (r: Option<Message>)
    ensures
        match r {
            Some(out) => spec_parse_message(b@) == Some(out@),
            None => spec_parse_message(b@) is None,
        },
{
    let parsed = read_message_fields(b);
    match parsed {
        None => None,
        Some((m, j)) => {
            if j == b.len() {
                Some(m)
            } else {
                None
            }
        }
    }
}

fn read_message_fields(b: &[u8]) -> (r: Option<(Message, usize)>)
    ensures
        match r {
            Some((m, j)) => parse_message_fields(b@, 0) == Some((m@, j as int)) && m@.resource_id
                is None,
            None => parse_message_fields(b@, 0) is None,
        },
{
    let Some((id, i1)) = read_bytes(b, 0) else { return None };
    let Some((tt, i2)) = read_byte(b, i1) else { return None };
    let Some(message_type) = type_of_tag(tt) else { return None };
    let Some((server_id, i3)) = read_opt_bytes(b, i2) else { return None };
    let Some((dt, i4)) = read_byte(b, i3) else { return None };
    let Some(data) = data_of_tag(dt) else { return None };
    let Some((mt, i5)) = read_byte(b, i4) else { return None };
    let Some(metadata) = metadata_of_tag(mt) else { return None };
    let Some((n, i6)) = read_u64(b, i5) else { return None };
    let Some((errors, i7)) = read_error_list(b, i6, n) else { return None };
    let m = Message {
        id,
        message_type,
        server_id,
        resource_id: None,
        data,
        metadata,
        errors,
    };
    proof {
        assert(m@.errors =~= errs_view(m.errors@));
    }
    Some((m, i7))
}

} // verus!
