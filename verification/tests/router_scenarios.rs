use extension_server::codec::{decode, encode, extract_server_id};
use extension_server::frame::emit_frame;
use extension_server::heartbeat::heartbeat_cycle;
use extension_server::message::{ErrorType, Message, Type};
use extension_server::request::{dispatch_bot_request, BotRequest, Dispatch, ServerRequest};
use extension_server::router::{
    ConnectOutcome, DisconnectNote, KeyedStep, MessageStep, Router, SendOutcome,
};

fn key_abc() -> Vec<u8> {
    vec![7u8; 32]
}

/// Brings one router up with admission on.
fn ready_router() -> Router {
    let mut r = Router::new();
    r.set_bot_connected(true);
    r.resume();
    r
}

/// Walks one client through accept, identify and init; returns the router
/// with the client live on endpoint 7 / resource 70 under id `abc`.
fn connected_router(now: u64) -> Router {
    let mut r = ready_router();
    match r.on_connect(7, 70, now) {
        ConnectOutcome::Greeted { frame } => {
            assert_eq!(frame, b"{\"t\":\"id\",\"c\":[]}".to_vec())
        }
        _ => panic!("expected a greeting"),
    }
    match r.on_message(7, b"{\"t\":\"id\",\"c\":[97,98,99]}") {
        MessageStep::InitRequested { frame } => {
            assert_eq!(frame, b"{\"t\":\"i\",\"c\":[]}".to_vec())
        }
        _ => panic!("expected the init solicitation"),
    }
    let mut init = Message::new(Type::Init);
    init.id = b"m0".to_vec();
    init.server_id = Some(b"abc".to_vec());
    let packet = encode(&init, &key_abc()).expect("encode");
    let fb = emit_frame(b"m", &packet);
    let content = match r.on_message(7, &fb) {
        MessageStep::NeedKey { server_id, content, .. } => {
            assert_eq!(server_id, b"abc".to_vec());
            content
        }
        _ => panic!("expected a key lookup"),
    };
    match r.on_message_with_key(7, &content, Some(key_abc()), now) {
        KeyedStep::Forwarded { server_id, message } => {
            assert_eq!(server_id, b"abc".to_vec());
            assert_eq!(message.message_type, Type::Init);
            assert_eq!(message.id, b"m0".to_vec());
            assert_eq!(message.resource_id, Some(70));
        }
        _ => panic!("expected the init to go to the bot"),
    }
    r
}

#[test]
fn happy_connect_forwards_init() {
    let r = connected_router(0);
    let c = r.clients.get(7).expect("client");
    assert_eq!(c.server_id, b"abc".to_vec());
    assert_eq!(c.server_key, key_abc());
}

#[test]
fn unknown_key_closes_the_endpoint_silently() {
    let mut r = ready_router();
    assert!(matches!(r.on_connect(7, 70, 0), ConnectOutcome::Greeted { .. }));
    assert!(matches!(
        r.on_message(7, b"{\"t\":\"id\",\"c\":[97,98,99]}"),
        MessageStep::InitRequested { .. }
    ));
    let mut init = Message::new(Type::Init);
    init.server_id = Some(b"abc".to_vec());
    let packet = encode(&init, &key_abc()).expect("encode");
    let fb = emit_frame(b"m", &packet);
    let content = match r.on_message(7, &fb) {
        MessageStep::NeedKey { content, .. } => content,
        _ => panic!("expected a key lookup"),
    };
    // the credential store had nothing for `abc`
    match r.on_message_with_key(7, &content, None, 0) {
        KeyedStep::Closed { close } => assert_eq!(close, 70),
        _ => panic!("expected the endpoint to be closed"),
    }
    assert!(r.clients.get(7).is_none());
}

#[test]
fn ping_pong_restarts_the_liveness_clock() {
    let mut r = connected_router(0);
    // 6 s of silence: one ping goes out, nobody is dropped
    let out = r.alive_check(6_000);
    assert_eq!(out.to_close, Vec::<u64>::new());
    assert_eq!(out.pings.len(), 1);
    assert_eq!(out.pings[0].endpoint, 7);
    let req = extension_server::frame::parse_frame(&out.pings[0].frame).expect("frame");
    assert_eq!(req.request_type, b"m".to_vec());
    let ping = decode(&req.content, &key_abc()).expect("decode");
    assert_eq!(ping.message_type, Type::Ping);
    assert!(!r.clients.get(7).expect("client").pong_received);
    // the client answers with an encrypted pong
    let mut pong = Message::new(Type::Pong);
    pong.server_id = Some(b"abc".to_vec());
    let packet = encode(&pong, &key_abc()).expect("encode");
    let content = match r.on_message(7, &emit_frame(b"m", &packet)) {
        MessageStep::NeedKey { content, .. } => content,
        _ => panic!("expected a key lookup"),
    };
    assert!(matches!(
        r.on_message_with_key(7, &content, Some(key_abc()), 6_100),
        KeyedStep::PongNoted
    ));
    let c = r.clients.get(7).expect("client");
    assert!(c.pong_received);
    assert_eq!(c.last_checked_at, 6_100);
}

#[test]
fn pause_flushes_and_new_accepts_are_closed() {
    let mut r = connected_router(0);
    let closes = r.pause();
    assert_eq!(closes, vec![70]);
    assert!(r.clients.get(7).is_none());
    match r.on_connect(8, 80, 1) {
        ConnectOutcome::Rejected { close } => assert_eq!(close, 80),
        _ => panic!("expected the accept to be rejected"),
    }
    assert!(r.clients.get(8).is_none());
}

#[test]
fn undeliverable_send_reports_back_to_the_bot() {
    let r = ready_router();
    let mut m = Message::new(Type::Test);
    m.id = b"m1".to_vec();
    m.server_id = Some(b"zzz".to_vec());
    match r.send_to_client(&b"zzz".to_vec(), m) {
        SendOutcome::Undeliverable { reply } => {
            assert_eq!(reply.id, b"m1".to_vec());
            assert_eq!(reply.message_type, Type::Error);
            let last = reply.errors.last().expect("error entry");
            assert_eq!(last.error_type, ErrorType::Code);
            assert_eq!(last.error_message, b"client_not_connected".to_vec());
        }
        _ => panic!("expected the send to bounce"),
    }
}

#[test]
fn deliverable_send_writes_one_frame() {
    let r = connected_router(0);
    let mut m = Message::new(Type::Test);
    m.id = b"m2".to_vec();
    m.server_id = Some(b"abc".to_vec());
    match r.send_to_client(&b"abc".to_vec(), m) {
        SendOutcome::Deliver { endpoint, frame } => {
            assert_eq!(endpoint, 7);
            let req = extension_server::frame::parse_frame(&frame).expect("frame");
            assert_eq!(req.request_type, b"m".to_vec());
            let out = decode(&req.content, &key_abc()).expect("decode");
            assert_eq!(out.id, b"m2".to_vec());
            assert_eq!(out.message_type, Type::Test);
        }
        _ => panic!("expected a delivery"),
    }
}

#[test]
fn bot_death_flushes_clients_and_blocks_accepts() {
    let mut r = connected_router(0);
    // the 200 ms window elapsed with no pong
    let cycle = heartbeat_cycle(true, false, true);
    assert!(cycle.sent_ping);
    assert!(cycle.changed);
    assert!(!cycle.new_bot_connected);
    assert!(cycle.flush);
    r.set_bot_connected(cycle.new_bot_connected);
    let closes = r.disconnect(None);
    assert_eq!(closes, vec![70]);
    assert!(r.clients.get(7).is_none());
    assert!(matches!(r.on_connect(9, 90, 1), ConnectOutcome::Rejected { .. }));
    // once the bot answers again, accepts go through
    let back = heartbeat_cycle(true, true, false);
    assert!(back.changed && back.new_bot_connected && !back.flush);
    r.set_bot_connected(true);
    assert!(matches!(r.on_connect(9, 90, 2), ConnectOutcome::Greeted { .. }));
}

#[test]
fn reserved_types_are_rejected_with_an_error_frame() {
    let mut r = connected_router(0);
    let mut m = Message::new(Type::Pause);
    m.server_id = Some(b"abc".to_vec());
    let packet = encode(&m, &key_abc()).expect("encode");
    let content = match r.on_message(7, &emit_frame(b"m", &packet)) {
        MessageStep::NeedKey { content, .. } => content,
        _ => panic!("expected a key lookup"),
    };
    match r.on_message_with_key(7, &content, Some(key_abc()), 1) {
        KeyedStep::RejectedType { frame } => {
            let frame = frame.expect("the reply is encodable");
            let req = extension_server::frame::parse_frame(&frame).expect("frame");
            let out = decode(&req.content, &key_abc()).expect("decode");
            assert_eq!(out.message_type, Type::Pause);
            let last = out.errors.last().expect("error entry");
            assert_eq!(last.error_type, ErrorType::Message);
            assert_eq!(
                last.error_message,
                b"Error - Invalid message type provided".to_vec()
            );
        }
        _ => panic!("expected the type to be rejected"),
    }
    // the client is still connected
    assert!(r.clients.get(7).is_some());
}

#[test]
fn garbage_frame_disconnects_the_client() {
    let mut r = connected_router(0);
    match r.on_message(7, b"not json at all") {
        MessageStep::Closed { close } => assert_eq!(close, 70),
        _ => panic!("expected the endpoint to be closed"),
    }
    assert!(r.clients.get(7).is_none());
}

#[test]
fn tampered_packet_disconnects_the_client() {
    let mut r = connected_router(0);
    let mut m = Message::new(Type::Test);
    m.server_id = Some(b"abc".to_vec());
    let mut packet = encode(&m, &key_abc()).expect("encode");
    let n = packet.len();
    packet[n - 1] ^= 0xFF;
    let content = match r.on_message(7, &emit_frame(b"m", &packet)) {
        MessageStep::NeedKey { content, .. } => content,
        _ => panic!("expected a key lookup"),
    };
    assert!(matches!(
        r.on_message_with_key(7, &content, Some(key_abc()), 1),
        KeyedStep::Closed { .. }
    ));
    assert!(r.clients.get(7).is_none());
}

#[test]
fn second_identity_claim_on_a_taken_id_is_refused() {
    let mut r = connected_router(0);
    assert!(matches!(r.on_connect(8, 80, 0), ConnectOutcome::Greeted { .. }));
    match r.on_message(8, b"{\"t\":\"id\",\"c\":[97,98,99]}") {
        MessageStep::Closed { close } => assert_eq!(close, 80),
        _ => panic!("expected the claim to be refused"),
    }
    // at most one client answers for `abc`
    let c = r.clients.get_by_id(b"abc").expect("client");
    assert_eq!(c.endpoint, 7);
}

#[test]
fn disconnect_notice_names_the_client() {
    let mut r = connected_router(0);
    match r.on_disconnect(7) {
        DisconnectNote::Notified { server_id } => {
            assert_eq!(server_id, Some(b"abc".to_vec()))
        }
        _ => panic!("expected the bot to be told"),
    }
    // the entry stays, soft-disconnected, until the sweep
    assert!(!r.clients.get(7).expect("client").connected);
    let out = r.alive_check(1);
    assert_eq!(out.to_close, vec![70]);
    assert!(r.clients.get(7).is_none());
}

#[test]
fn bot_requests_dispatch_where_they_belong() {
    assert!(matches!(
        dispatch_bot_request(BotRequest::ServerRequest(ServerRequest::Resume)),
        Dispatch::ToServer(ServerRequest::Resume)
    ));
    assert!(matches!(dispatch_bot_request(BotRequest::Pong), Dispatch::PongLatch));
    let m = Message::new(Type::Test);
    assert!(matches!(
        dispatch_bot_request(BotRequest::SendToClient { server_id: b"abc".to_vec(), message: m }),
        Dispatch::ToServer(ServerRequest::Send { .. })
    ));
    assert!(matches!(dispatch_bot_request(BotRequest::Ping), Dispatch::Unsupported));
    assert!(matches!(
        dispatch_bot_request(BotRequest::Disconnected(None)),
        Dispatch::Unsupported
    ));
}

#[test]
fn heartbeat_skips_while_a_ping_is_outstanding() {
    let cycle = heartbeat_cycle(false, false, true);
    assert!(!cycle.sent_ping);
    assert!(!cycle.changed);
    assert!(cycle.new_bot_connected);
    assert!(!cycle.flush);
}

#[test]
fn heartbeat_does_not_flap_on_a_steady_observation() {
    let up = heartbeat_cycle(true, true, true);
    assert!(up.sent_ping && !up.changed && up.new_bot_connected && !up.flush);
    let down = heartbeat_cycle(true, false, false);
    assert!(down.sent_ping && !down.changed && !down.new_bot_connected && !down.flush);
}

#[test]
fn frames_from_unknown_endpoints_are_ignored() {
    let mut r = ready_router();
    assert!(matches!(
        r.on_message(99, b"{\"t\":\"id\",\"c\":[97]}"),
        MessageStep::Ignored
    ));
    assert!(matches!(r.on_disconnect(99), DisconnectNote::Ignored));
}

#[test]
fn extract_server_id_refuses_malformed_headers() {
    assert_eq!(extract_server_id(&[]), None);
    assert_eq!(extract_server_id(&[0, 12]), None);
    assert_eq!(extract_server_id(&[2, 97]), None);
}
