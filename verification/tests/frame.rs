use extension_server::frame::{emit_frame, parse_frame};

#[test]
fn emit_identity_solicitation() {
    assert_eq!(emit_frame(b"id", &[]), b"{\"t\":\"id\",\"c\":[]}".to_vec());
}

#[test]
fn emit_init_solicitation() {
    assert_eq!(emit_frame(b"i", &[]), b"{\"t\":\"i\",\"c\":[]}".to_vec());
}

#[test]
fn emit_message_frame_digits() {
    assert_eq!(
        emit_frame(b"m", &[0, 7, 15, 100, 255]),
        b"{\"t\":\"m\",\"c\":[0,7,15,100,255]}".to_vec()
    );
}

#[test]
fn parse_identity_reply() {
    let req = parse_frame(b"{\"t\":\"id\",\"c\":[97,98,99]}").expect("parse");
    assert_eq!(req.request_type, b"id".to_vec());
    assert_eq!(req.content, vec![97, 98, 99]);
}

#[test]
fn parse_requires_the_content_key() {
    assert!(parse_frame(b"{\"t\":\"i\"}").is_none());
    let req = parse_frame(b"{\"t\":\"i\",\"c\":[]}").expect("parse");
    assert_eq!(req.request_type, b"i".to_vec());
    assert_eq!(req.content, Vec::<u8>::new());
}

#[test]
fn parse_round_trips_emit() {
    let frame = emit_frame(b"m", &[1, 22, 250]);
    let req = parse_frame(&frame).expect("parse");
    assert_eq!(req.request_type, b"m".to_vec());
    assert_eq!(req.content, vec![1, 22, 250]);
}

#[test]
fn parse_rejects_malformed_frames() {
    assert!(parse_frame(b"").is_none());
    assert!(parse_frame(b"{\"t\":\"m\"").is_none());
    // leading zero
    assert!(parse_frame(b"{\"t\":\"m\",\"c\":[01]}").is_none());
    // out of byte range
    assert!(parse_frame(b"{\"t\":\"m\",\"c\":[256]}").is_none());
    // trailing garbage
    assert!(parse_frame(b"{\"t\":\"m\",\"c\":[1]}x").is_none());
    // not a number
    assert!(parse_frame(b"{\"t\":\"m\",\"c\":[x]}").is_none());
    // wrong key
    assert!(parse_frame(b"{\"u\":\"m\",\"c\":[1]}").is_none());
}
