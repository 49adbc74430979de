//! The framed message codec. A packet is, in order: one byte holding the
//! length of the server id (1..=255), the server id itself in the clear,
//! one byte holding the nonce length (always 12), the nonce, and the
//! AES-256-GCM sealed serialization of the message. The server id rides in
//! the clear so the receiver can look the key up before opening the seal.

use vstd::prelude::*;
use vstd::slice::*;
use crate::aead::{aes256gcm_decrypt, aes256gcm_encrypt, fresh_nonce, gcm_cipher_of,
    gcm_plain_limit};
use crate::message::{Message, MessageView};
use crate::serial::{parse_message, serialize_message, spec_ser_message, lemma_parse_of_ser,
    lemma_ser_of_parse, wire_of, wire_wf};

verus! {

/// Why the codec refused to encode or decode.
#[derive(Clone, Copy, Debug, PartialEq, Eq, Structural)]
pub enum CodecError {
    /// The message carries no server id, so it cannot be framed.
    MissingServerId,
    /// The server id is empty or longer than one length byte can hold.
    InvalidServerId,
    /// The key holds fewer than the 32 bytes the cipher needs.
    KeyTooShort,
    /// The serialized message is beyond the cipher's length bound.
    TooLarge,
    /// The packet header is malformed.
    FrameMalformed,
    /// The seal did not verify under the given key and nonce.
    Decrypt,
    /// The sealed bytes are not a canonical serialization.
    Deserialize,
}

/// The packet laid out from its three parts.
pub open spec fn spec_packet(sid: Seq<u8>, nonce: Seq<u8>, sealed: Seq<u8>) -> Seq<u8> {
    seq![sid.len() as u8] + sid + seq![nonce.len() as u8] + nonce + sealed
}

/// The inputs on which encoding is owed to succeed.
pub open spec fn encodable(m: MessageView, key: Seq<u8>) -> bool {
    &&& m.server_id matches Some(sid) && 1 <= sid.len() <= 255
    &&& key.len() >= 32
    &&& spec_ser_message(m).len() < gcm_plain_limit()
}

/// `packet` is what encoding `m` under `key` can produce: for some 12-byte
/// nonce, the framed seal of `m`'s canonical serialization.
pub open spec fn is_encoding_of(packet: Seq<u8>, m: MessageView, key: Seq<u8>) -> bool {
    &&& m.server_id matches Some(sid) && 1 <= sid.len() <= 255
    &&& exists|nonce: Seq<u8>|
        nonce.len() == 12 && packet == spec_packet(
            m.server_id.unwrap(),
            nonce,
            #[trigger] gcm_cipher_of(key.take(32), nonce, spec_ser_message(m)),
        )
}

/// The packet header split into server id, nonce and sealed bytes, or
/// nothing if it is malformed: no length byte, a zero or overrunning id
/// length, a nonce length other than 12, or a truncated nonce.
pub open spec fn spec_header(b: Seq<u8>) -> Option<(Seq<u8>, Seq<u8>, Seq<u8>)> {
    if b.len() < 1 {
        None
    } else {
        let l = b[0] as int;
        if l == 0 || l + 1 >= b.len() {
            None
        } else if b[l + 1] != 12 {
            None
        } else if l + 14 > b.len() {
            None
        } else {
            Some((b.subrange(1, 1 + l), b.subrange(l + 2, l + 14), b.subrange(l + 14, b.len() as int)))
        }
    }
}

/// A packet built from well-sized parts parses back to exactly those parts.
pub proof fn lemma_header_of_packet(sid: Seq<u8>, nonce: Seq<u8>, sealed: Seq<u8>)
    requires
        1 <= sid.len() <= 255,
        nonce.len() == 12,
    ensures
        spec_header(spec_packet(sid, nonce, sealed)) == Some((sid, nonce, sealed)),
{
    let b = spec_packet(sid, nonce, sealed);
    let l = sid.len() as int;
    assert(b[0] == l as u8);
    assert(b[l + 1] == 12u8);
    assert(b.len() == l + 14 + sealed.len());
    assert(b.subrange(1, 1 + l) =~= sid);
    assert(b.subrange(l + 2, l + 14) =~= nonce);
    assert(b.subrange(l + 14, b.len() as int) =~= sealed);
}

/// A parsed header accounts for every byte of the packet.
pub proof fn lemma_header_canon(b: Seq<u8>)
    requires
        spec_header(b) is Some,
    ensures
        ({
            let (sid, nonce, sealed) = spec_header(b).unwrap();
            &&& 1 <= sid.len() <= 255
            &&& nonce.len() == 12
            &&& b == spec_packet(sid, nonce, sealed)
        }),
{
    let (sid, nonce, sealed) = spec_header(b).unwrap();
    assert(b =~= spec_packet(sid, nonce, sealed));
}

/// Encodes `m` for the wire: serializes it (the transport-set `resource_id`
/// stays behind), seals the bytes under a fresh random nonce with the first
/// 32 bytes of `key`, and frames the result behind the cleartext server id.
pub fn encode(m: &Message, key: &[u8]) -> (r: Result<Vec<u8>, CodecError>)
    ensures
        m@.server_id is None ==> r == Err::<Vec<u8>, CodecError>(CodecError::MissingServerId),
        m@.server_id matches Some(sid) && !(1 <= sid.len() <= 255) ==> r == Err::<
            Vec<u8>,
            CodecError,
        >(CodecError::InvalidServerId),
        m@.server_id matches Some(sid) && 1 <= sid.len() <= 255 && key@.len() < 32 ==> r == Err::<
            Vec<u8>,
            CodecError,
        >(CodecError::KeyTooShort),
        m@.server_id matches Some(sid) && 1 <= sid.len() <= 255 && key@.len() >= 32
            && spec_ser_message(m@).len() >= gcm_plain_limit() ==> r == Err::<
            Vec<u8>,
            CodecError,
        >(CodecError::TooLarge),
        encodable(m@, key@) ==> r is Ok,
        r matches Ok(packet) ==> encodable(m@, key@) && is_encoding_of(
            packet@,
            wire_of(m@),
            key@,
        ),
{
    let sid = match &m.server_id {
        None => {
            return Err(CodecError::MissingServerId);
        }
        Some(sid) => sid,
    };
    if sid.len() == 0 || sid.len() > 255 {
        return Err(CodecError::InvalidServerId);
    }
    if key.len() < 32 {
        return Err(CodecError::KeyTooShort);
    }
    let plain = serialize_message(m);
    if plain.len() as u64 >= 0x10_0000_0000u64 {
        return Err(CodecError::TooLarge);
    }
    let nonce = fresh_nonce();
    let key32 = slice_subrange(key, 0, 32);
    let sealed = aes256gcm_encrypt(key32, nonce.as_slice(), plain.as_slice());
    let mut packet: Vec<u8> = Vec::new();
    packet.push(sid.len() as u8);
    let mut sid_bytes = slice_to_vec(sid.as_slice());
    packet.append(&mut sid_bytes);
    packet.push(12);
    let mut nonce_copy = slice_to_vec(nonce.as_slice());
    packet.append(&mut nonce_copy);
    let mut sealed_copy = sealed;
    packet.append(&mut sealed_copy);
    proof {
        let w = wire_of(m@);
        assert(spec_ser_message(w) == spec_ser_message(m@));
        let n = nonce@;
        let body = gcm_cipher_of(key@.take(32), n, spec_ser_message(w));
        assert(key32@ == key@.take(32));
        assert(packet@ =~= spec_packet(w.server_id.unwrap(), n, body));
        assert(is_encoding_of(packet@, w, key@));
    }
    Ok(packet)
}

/// Reads the cleartext server id out of a packet header without any key,
/// so the caller can look the key up before decoding.
pub fn extract_server_id(bytes: &[u8]) -> (r: Option<Vec<u8>>)
    ensures
        match r {
            Some(sid) => spec_header(bytes@) matches Some((s, _, _)) && sid@ == s,
            None => spec_header(bytes@) is None,
        },
{
    if bytes.len() < 1 {
        return None;
    }
    let l = *slice_index_get(bytes, 0) as usize;
    if l == 0 || l + 1 >= bytes.len() {
        return None;
    }
    if *slice_index_get(bytes, l + 1) != 12 {
        return None;
    }
    if l + 14 > bytes.len() {
        return None;
    }
    Some(slice_to_vec(slice_subrange(bytes, 1, 1 + l)))
}

/// Decodes a packet under `key`: splits the header, opens the seal with the
/// first 32 bytes of the key, and parses the canonical serialization.
///
/// The second `ensures` clause is the codec round trip: every packet that
/// encoding a message could have produced decodes back to exactly that
/// message.
pub fn decode(bytes: &[u8], key: &[u8]) -> (r: Result<Message, CodecError>)
    ensures
        r == Err::<Message, CodecError>(CodecError::FrameMalformed) <==> spec_header(bytes@)
            is None,
        forall|m: MessageView|
            wire_wf(m) && m.resource_id is None && spec_ser_message(m).len() < gcm_plain_limit()
                && key@.len() >= 32 && #[trigger] is_encoding_of(bytes@, m, key@) ==> (r matches Ok(
                out,
            ) && out@ == m),
        spec_header(bytes@) is Some ==> (r == Err::<Message, CodecError>(CodecError::KeyTooShort)
            <==> key@.len() < 32),
        r matches Ok(out) ==> ({
            let (sid, nonce, _) = spec_header(bytes@).unwrap();
            &&& spec_header(bytes@) is Some
            &&& key@.len() >= 32
            &&& wire_wf(out@)
            &&& out@.resource_id is None
            &&& bytes@ == spec_packet(
                sid,
                nonce,
                gcm_cipher_of(key@.take(32), nonce, spec_ser_message(out@)),
            )
        }),
{
    if bytes.len() < 1 {
        proof {
            lemma_not_encoding_without_header(bytes@, key@);
        }
        return Err(CodecError::FrameMalformed);
    }
    let l = *slice_index_get(bytes, 0) as usize;
    if l == 0 || l + 1 >= bytes.len() {
        proof {
            lemma_not_encoding_without_header(bytes@, key@);
        }
        return Err(CodecError::FrameMalformed);
    }
    if *slice_index_get(bytes, l + 1) != 12 {
        proof {
            lemma_not_encoding_without_header(bytes@, key@);
        }
        return Err(CodecError::FrameMalformed);
    }
    if l + 14 > bytes.len() {
        proof {
            lemma_not_encoding_without_header(bytes@, key@);
        }
        return Err(CodecError::FrameMalformed);
    }
    let ghost header = spec_header(bytes@).unwrap();
    if key.len() < 32 {
        return Err(CodecError::KeyTooShort);
    }
    let nonce = slice_subrange(bytes, l + 2, l + 14);
    let sealed = slice_subrange(bytes, l + 14, bytes.len());
    let key32 = slice_subrange(key, 0, 32);
    proof {
        assert(nonce@ == header.1);
        assert(sealed@ == header.2);
        assert(key32@ == key@.take(32));
    }
    match aes256gcm_decrypt(key32, nonce, sealed) {
        Err(_) => {
            proof {
                assert forall|m: MessageView|
                    wire_wf(m) && m.resource_id is None && spec_ser_message(m).len()
                        < gcm_plain_limit() && key@.len() >= 32 && #[trigger] is_encoding_of(
                        bytes@,
                        m,
                        key@,
                    ) implies false by {
                    lemma_decode_encoding_implies_seal(bytes@, key@);
                    assert(sealed@ == gcm_cipher_of(key@.take(32), nonce@, spec_ser_message(m)));
                }
            }
            Err(CodecError::Decrypt)
        }
        Ok(plain) => {
            match parse_message(plain.as_slice()) {
                None => {
                    proof {
                        assert forall|m: MessageView|
                            wire_wf(m) && m.resource_id is None && spec_ser_message(m).len()
                                < gcm_plain_limit() && key@.len() >= 32 && #[trigger] is_encoding_of(
                                bytes@,
                                m,
                                key@,
                            ) implies false by {
                            lemma_decode_encoding_implies_seal(bytes@, key@);
                            assert(sealed@ == gcm_cipher_of(
                                key@.take(32),
                                nonce@,
                                spec_ser_message(m),
                            ));
                            assert(plain@ == spec_ser_message(m));
                            lemma_parse_of_ser(m);
                        }
                    }
                    Err(CodecError::Deserialize)
                }
                Some(msg) => {
                    proof {
                        lemma_ser_of_parse(plain@);
                        lemma_header_canon(bytes@);
                        assert forall|m: MessageView|
                            wire_wf(m) && m.resource_id is None && spec_ser_message(m).len()
                                < gcm_plain_limit() && key@.len() >= 32 && #[trigger] is_encoding_of(
                                bytes@,
                                m,
                                key@,
                            ) implies msg@ == m by {
                            lemma_decode_encoding_implies_seal(bytes@, key@);
                            assert(sealed@ == gcm_cipher_of(
                                key@.take(32),
                                nonce@,
                                spec_ser_message(m),
                            ));
                            assert(plain@ == spec_ser_message(m));
                            lemma_parse_of_ser(m);
                            assert(wire_of(m) == m);
                        }
                    }
                    Ok(msg)
                }
            }
        }
    }
}

/// Header parseability without the key: any packet that encodes `m` under
/// `key` carries the server id length in its first byte, the server id in
/// the clear right after, and the nonce length 12 behind that — so a
/// receiver can look the key up before opening anything.
pub proof fn lemma_header_parseable(packet: Seq<u8>, m: MessageView, key: Seq<u8>)
    requires
        is_encoding_of(packet, m, key),
    ensures
        ({
            let sid = m.server_id.unwrap();
            &&& packet.len() > sid.len() + 1
            &&& packet[0] == sid.len() as u8
            &&& packet.subrange(1, 1 + sid.len() as int) == sid
            &&& packet[sid.len() as int + 1] == 12u8
        }),
{
    let sid = m.server_id.unwrap();
    let nonce = choose|nonce: Seq<u8>|
        nonce.len() == 12 && packet == spec_packet(
            sid,
            nonce,
            #[trigger] gcm_cipher_of(key.take(32), nonce, spec_ser_message(m)),
        );
    lemma_header_of_packet(sid, nonce, gcm_cipher_of(key.take(32), nonce, spec_ser_message(m)));
    assert(packet.subrange(1, 1 + sid.len() as int) =~= sid);
}

/// A malformed packet encodes nothing.
proof fn lemma_not_encoding_without_header(b: Seq<u8>, key: Seq<u8>)
    requires
        spec_header(b) is None,
    ensures
        forall|m: MessageView| !#[trigger] is_encoding_of(b, m, key),
{
    assert forall|m: MessageView| !#[trigger] is_encoding_of(b, m, key) by {
        if is_encoding_of(b, m, key) {
            let nonce = choose|nonce: Seq<u8>|
                nonce.len() == 12 && b == spec_packet(
                    m.server_id.unwrap(),
                    nonce,
                    #[trigger] gcm_cipher_of(key.take(32), nonce, spec_ser_message(m)),
                );
            lemma_header_of_packet(
                m.server_id.unwrap(),
                nonce,
                gcm_cipher_of(key.take(32), nonce, spec_ser_message(m)),
            );
        }
    }
}

/// For any message the packet could encode, its serialization is what sits
/// under the seal: the header parts are determined by the packet alone.
proof fn lemma_decode_encoding_implies_seal(b: Seq<u8>, key: Seq<u8>)
    requires
        spec_header(b) is Some,
    ensures
        forall|m: MessageView|
            #[trigger] is_encoding_of(b, m, key) ==> spec_header(b).unwrap().2 == gcm_cipher_of(
                key.take(32),
                spec_header(b).unwrap().1,
                spec_ser_message(m),
            ),
{
    assert forall|m: MessageView| #[trigger] is_encoding_of(b, m, key) implies spec_header(
        b,
    ).unwrap().2 == gcm_cipher_of(key.take(32), spec_header(b).unwrap().1, spec_ser_message(m)) by {
        let nonce = choose|nonce: Seq<u8>|
            nonce.len() == 12 && b == spec_packet(
                m.server_id.unwrap(),
                nonce,
                #[trigger] gcm_cipher_of(key.take(32), nonce, spec_ser_message(m)),
            );
        lemma_header_of_packet(
            m.server_id.unwrap(),
            nonce,
            gcm_cipher_of(key.take(32), nonce, spec_ser_message(m)),
        );
    }
}

} // verus!
