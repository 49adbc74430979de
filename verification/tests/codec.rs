use extension_server::codec::{decode, encode, extract_server_id, CodecError};
use extension_server::message::{Data, ErrorType, Message, Metadata, Type};
use aes_gcm::aead::{Aead, KeyInit};

fn key_a() -> Vec<u8> {
    vec![7u8; 32]
}

fn key_b() -> Vec<u8> {
    vec![8u8; 32]
}

fn sample_message() -> Message {
    let mut m = Message::new(Type::Init);
    m.id = b"m0".to_vec();
    m.server_id = Some(b"abc".to_vec());
    m.add_error(ErrorType::Message, b"warming up".to_vec());
    m
}

#[test]
fn round_trip_preserves_message() {
    let m = sample_message();
    let packet = encode(&m, &key_a()).expect("encode");
    let out = decode(&packet, &key_a()).expect("decode");
    assert_eq!(out.id, m.id);
    assert_eq!(out.message_type, m.message_type);
    assert_eq!(out.server_id, m.server_id);
    // the transport-set field never travels
    assert_eq!(out.resource_id, None);
    assert_eq!(out.data, Data::Empty);
    assert_eq!(out.metadata, Metadata::Empty);
    assert_eq!(out.errors.len(), 1);
    assert_eq!(out.errors[0].error_type, ErrorType::Message);
    assert_eq!(out.errors[0].error_message, b"warming up".to_vec());
}

#[test]
fn round_trip_drops_resource_id() {
    let mut m = sample_message();
    m.set_resource(42);
    let packet = encode(&m, &key_a()).expect("encode");
    let out = decode(&packet, &key_a()).expect("decode");
    assert_eq!(out.resource_id, None);
    assert_eq!(out.id, m.id);
}

#[test]
fn wrong_key_fails_decrypt() {
    let m = sample_message();
    let packet = encode(&m, &key_a()).expect("encode");
    assert!(matches!(decode(&packet, &key_b()), Err(CodecError::Decrypt)));
}

#[test]
fn header_is_parseable_without_key() {
    let m = sample_message();
    let packet = encode(&m, &key_a()).expect("encode");
    assert_eq!(packet[0], 3);
    assert_eq!(&packet[1..=3], b"abc");
    assert_eq!(packet[4], 12);
    assert_eq!(extract_server_id(&packet), Some(b"abc".to_vec()));
}

#[test]
fn two_encodings_differ() {
    let m = sample_message();
    let one = encode(&m, &key_a()).expect("encode");
    let two = encode(&m, &key_a()).expect("encode");
    assert_ne!(one, two);
    // and both still open
    assert!(decode(&one, &key_a()).is_ok());
    assert!(decode(&two, &key_a()).is_ok());
}

#[test]
fn encode_without_server_id_fails() {
    let m = Message::new(Type::Init);
    assert_eq!(encode(&m, &key_a()), Err(CodecError::MissingServerId));
}

#[test]
fn encode_with_empty_server_id_fails() {
    let mut m = Message::new(Type::Init);
    m.server_id = Some(Vec::new());
    assert_eq!(encode(&m, &key_a()), Err(CodecError::InvalidServerId));
}

#[test]
fn encode_with_oversized_server_id_fails() {
    let mut m = Message::new(Type::Init);
    m.server_id = Some(vec![97u8; 256]);
    assert_eq!(encode(&m, &key_a()), Err(CodecError::InvalidServerId));
}

#[test]
fn encode_with_short_key_fails() {
    let m = sample_message();
    assert_eq!(encode(&m, &vec![7u8; 31]), Err(CodecError::KeyTooShort));
}

#[test]
fn encode_accepts_long_key_using_first_32_bytes() {
    let m = sample_message();
    let mut long = key_a();
    long.extend_from_slice(&[99u8; 16]);
    let packet = encode(&m, &long).expect("encode");
    let out = decode(&packet, &key_a()).expect("decode under the 32-byte prefix");
    assert_eq!(out.id, m.id);
}

#[test]
fn decode_rejects_malformed_headers() {
    assert!(matches!(decode(&[], &key_a()), Err(CodecError::FrameMalformed)));
    // zero-length server id
    assert!(matches!(decode(&[0, 12, 1, 2], &key_a()), Err(CodecError::FrameMalformed)));
    // id length overruns the packet
    assert!(matches!(decode(&[9, 97, 98], &key_a()), Err(CodecError::FrameMalformed)));
    // nonce length other than 12
    let bad = [1, 97, 11, 0, 0, 0, 0, 0, 0, 0, 0, 0, 0, 0, 1, 2, 3];
    assert!(matches!(decode(&bad, &key_a()), Err(CodecError::FrameMalformed)));
    // truncated nonce
    assert!(matches!(decode(&[1, 97, 12, 0, 0], &key_a()), Err(CodecError::FrameMalformed)));
}

#[test]
fn decode_with_short_key_fails() {
    let m = sample_message();
    let packet = encode(&m, &key_a()).expect("encode");
    assert!(matches!(decode(&packet, &[1u8; 16]), Err(CodecError::KeyTooShort)));
}

#[test]
fn decode_rejects_junk_plaintext() {
    // seal bytes that are no canonical serialization, with the real cipher
    let key = key_a();
    let cipher = aes_gcm::Aes256Gcm::new(aes_gcm::Key::<aes_gcm::Aes256Gcm>::from_slice(&key));
    let nonce_bytes = [5u8; 12];
    let sealed = cipher
        .encrypt(aes_gcm::Nonce::from_slice(&nonce_bytes), b"junk".as_ref())
        .expect("seal");
    let mut packet = vec![3u8];
    packet.extend_from_slice(b"abc");
    packet.push(12);
    packet.extend_from_slice(&nonce_bytes);
    packet.extend_from_slice(&sealed);
    assert!(matches!(decode(&packet, &key), Err(CodecError::Deserialize)));
}
