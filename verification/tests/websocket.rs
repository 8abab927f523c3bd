use tasks_rust::websocket::{
    decode_message, encode_accept, encode_frame, get_sec_accept_encoded, handshake_response,
    is_upgrade_request,
};

const REQUEST: &str = "GET /chat HTTP/1.1\r\nHost: server.example.com\r\nUpgrade: websocket\r\nConnection: Upgrade\r\nSec-WebSocket-Key: dGhlIHNhbXBsZSBub25jZQ==\r\nSec-WebSocket-Version: 13\r\n\r\n";

#[test]
fn accept_value_of_the_rfc_example() {
    assert_eq!(get_sec_accept_encoded(REQUEST), "s3pPLMBiTxaQ9kYGzzhZRbK+xOo=");
}

#[test]
fn no_key_no_accept_value() {
    assert_eq!(get_sec_accept_encoded("GET / HTTP/1.1\r\nHost: x\r\n"), "");
    assert_eq!(get_sec_accept_encoded("GET / HTTP/1.1\r\nSec-WebSocket-Key\r\n"), "");
}

#[test]
fn key_stops_at_the_next_separator() {
    let a = get_sec_accept_encoded("X\r\nSec-WebSocket-Key: abc: def\r\n");
    let b = get_sec_accept_encoded("X\r\nSec-WebSocket-Key: abc\r\n");
    assert_eq!(a, b);
    assert_eq!(a.len(), 28);
}

#[test]
fn handshake_answer() {
    assert_eq!(
        handshake_response(REQUEST),
        "HTTP/1.1 101 Switching Protocols\r\nUpgrade: websocket\r\nConnection: Upgrade\r\nSec-WebSocket-Accept: s3pPLMBiTxaQ9kYGzzhZRbK+xOo=\r\n\r\n"
    );
}

#[test]
fn base64_of_short_inputs() {
    assert_eq!(encode_accept(b""), "");
    assert_eq!(encode_accept(b"f"), "Zg==");
    assert_eq!(encode_accept(b"fo"), "Zm8=");
    assert_eq!(encode_accept(b"foo"), "Zm9v");
    assert_eq!(encode_accept(&[0xfb, 0xff]), "+/8=");
}

#[test]
fn recognizes_upgrade_requests() {
    assert!(is_upgrade_request(REQUEST));
    assert!(!is_upgrade_request("GET / HTTP/1.1\r\nUpgrade: websocket\r\nConnection: Upgrade\r\n"));
}

#[test]
fn frames_text() {
    assert_eq!(encode_frame("Hi"), vec![0x81, 2, b'H', b'i']);
    assert_eq!(encode_frame("é"), vec![0x81, 2, 0xc3, 0xa9]);
    let long = "x".repeat(130);
    let frame = encode_frame(&long);
    assert_eq!(frame[1], 2);
    assert_eq!(frame.len(), 132);
}

#[test]
fn decodes_the_rfc_example() {
    let mut buf = [0u8; 1024];
    let frame = [0x81, 0x85, 0x37, 0xfa, 0x21, 0x3d, 0x7f, 0x9f, 0x4d, 0x51, 0x58];
    buf[..frame.len()].copy_from_slice(&frame);
    assert_eq!(decode_message(buf), "Hello");
}

#[test]
fn decoding_skips_low_bytes() {
    let mut buf = [0u8; 1024];
    buf[1] = 0x83;
    buf[2..6].copy_from_slice(&[1, 2, 3, 4]);
    buf[6..9].copy_from_slice(&[b'a' ^ 1, 1, 0xe9 ^ 3]);
    assert_eq!(decode_message(buf), "aé");
}

#[test]
fn accept_value_ends_with_padding() {
    let value = get_sec_accept_encoded(REQUEST);
    assert_eq!(value.len(), 28);
    assert!(value.ends_with('='));
}

#[test]
fn other_header_lines_do_not_change_the_accept_value() {
    let r = REQUEST.trim();
    let l = "X-Extra: 1";
    let before = get_sec_accept_encoded(r);
    assert_eq!(get_sec_accept_encoded(&(r.to_string() + "\r\n" + l)), before);
    assert_eq!(get_sec_accept_encoded(&(l.to_string() + "\r\n" + r)), before);
    assert_eq!(get_sec_accept_encoded(&("".to_string() + "\r\n" + l)), get_sec_accept_encoded(""));
}
