use extension_server::client::Client;
use extension_server::client_message::{ClientMessage, Data, Metadata};
use extension_server::client_manager::ClientManager;
use extension_server::message::{Message, Type};
use extension_server::serial::{parse_message, serialize_message};

fn manager_with(clients: Vec<Client>) -> ClientManager {
    let mut m = ClientManager::new();
    m.clients = clients;
    m
}

#[test]
fn sweep_drops_a_client_silent_for_eleven_seconds() {
    let mut c = Client::new(7, 70, 0);
    c.server_id = b"abc".to_vec();
    let mut m = manager_with(vec![c]);
    let out = m.alive_check(11_000);
    assert_eq!(out.to_close, vec![70]);
    assert_eq!(out.pings.len(), 0);
    assert!(m.get(7).is_none());
}

#[test]
fn sweep_pings_a_client_silent_for_six_seconds() {
    let mut c = Client::new(7, 70, 0);
    c.server_id = b"abc".to_vec();
    c.server_key = vec![7u8; 32];
    let mut m = manager_with(vec![c]);
    let out = m.alive_check(6_000);
    assert_eq!(out.to_close, Vec::<u64>::new());
    assert_eq!(out.pings.len(), 1);
    assert_eq!(out.pings[0].endpoint, 7);
    let c = m.get(7).expect("client stays");
    assert!(!c.pong_received);
}

#[test]
fn sweep_leaves_a_recent_client_alone() {
    let c = Client::new(7, 70, 0);
    let mut m = manager_with(vec![c]);
    let out = m.alive_check(4_000);
    assert_eq!(out.to_close, Vec::<u64>::new());
    assert_eq!(out.pings.len(), 0);
    assert!(m.get(7).is_some());
}

#[test]
fn sweep_skips_the_ping_while_one_is_outstanding() {
    let mut c = Client::new(7, 70, 0);
    c.server_key = vec![7u8; 32];
    c.pong_received = false;
    let mut m = manager_with(vec![c]);
    let out = m.alive_check(6_000);
    assert_eq!(out.pings.len(), 0);
    assert!(m.get(7).is_some());
}

#[test]
fn lookups_run_by_endpoint_and_by_id() {
    let mut a = Client::new(7, 70, 0);
    a.server_id = b"abc".to_vec();
    let mut b = Client::new(8, 80, 0);
    b.server_id = b"xyz".to_vec();
    let m = manager_with(vec![a, b]);
    assert_eq!(m.get(8).expect("by endpoint").server_id, b"xyz".to_vec());
    assert_eq!(m.get_by_id(b"abc").expect("by id").endpoint, 7);
    assert!(m.get(9).is_none());
    assert!(m.get_by_id(b"nope").is_none());
}

#[test]
fn message_serialization_round_trips() {
    let mut m = Message::new(Type::Error);
    m.id = b"id-1".to_vec();
    m.server_id = Some(b"abc".to_vec());
    let bytes = serialize_message(&m);
    let out = parse_message(&bytes).expect("parse");
    assert_eq!(out.id, m.id);
    assert_eq!(out.message_type, m.message_type);
    assert_eq!(out.server_id, m.server_id);
    assert_eq!(out.errors.len(), 0);
}

#[test]
fn message_parser_rejects_trailing_bytes() {
    let m = Message::new(Type::Init);
    let mut bytes = serialize_message(&m);
    bytes.push(0);
    assert!(parse_message(&bytes).is_none());
}

#[test]
fn message_parser_rejects_unknown_tags() {
    let m = Message::new(Type::Init);
    let mut bytes = serialize_message(&m);
    // the type tag sits right after the 8-byte id length of the empty id
    bytes[8] = 200;
    assert!(parse_message(&bytes).is_none());
}

#[test]
fn error_entries_keep_their_parts() {
    let e = extension_server::message::Error::new(
        extension_server::message::ErrorType::Code,
        b"some_code".to_vec(),
    );
    assert!(matches!(e.error_type, extension_server::message::ErrorType::Code));
    assert_eq!(e.error_message, b"some_code".to_vec());
}

#[test]
fn client_messages_keep_their_parts() {
    let m = ClientMessage::new("k1".to_string(), Data::Empty, Metadata::Empty);
    assert_eq!(m.key, "k1");
    assert!(matches!(m.data, Data::Empty));
    assert!(matches!(m.metadata, Metadata::Empty));
}

#[test]
fn sweep_ping_failure_leaves_the_client_to_the_timer() {
    // no key yet: the ping cannot be sealed, but the latch still clears
    let mut c = Client::new(7, 70, 0);
    c.server_id = b"abc".to_vec();
    let mut m = manager_with(vec![c]);
    let out = m.alive_check(6_000);
    assert_eq!(out.pings.len(), 0);
    assert_eq!(out.to_close, Vec::<u64>::new());
    let c = m.get(7).expect("client stays");
    assert!(!c.pong_received);
}
