//! Frame and envelope codec behaviour on concrete values.

use arti_chat_daemon::frame::{read_frame, write_frame, FrameError, MAX_FRAME_LEN};
use arti_chat_daemon::json::{hex_decode_lower, push_hex, push_json_string};
use arti_chat_daemon::message::{encode_payload, encode_signed_message, parse_signed_message, MessagePayload};

fn payload(onion: &str, text: &str, ts: i64) -> MessagePayload {
    MessagePayload { onion_id: onion.to_string(), text: text.to_string(), timestamp: ts }
}

#[test]
fn frame_round_trip() {
    let body: Vec<u8> = vec![1, 2, 3, 255, 7];
    let framed = write_frame(&body);
    assert_eq!(framed.len(), body.len() + 1);
    assert_eq!(*framed.last().unwrap(), 0u8);
    let back = read_frame(&framed).unwrap();
    assert_eq!(back, body);
}

#[test]
fn frame_round_trip_empty() {
    let body: Vec<u8> = vec![];
    let back = read_frame(&write_frame(&body)).unwrap();
    assert_eq!(back, body);
}

#[test]
fn frame_reader_stops_at_terminator() {
    let data: Vec<u8> = vec![10, 20, 0, 30, 40];
    assert_eq!(read_frame(&data).unwrap(), vec![10, 20]);
}

#[test]
fn frame_unterminated_is_rejected() {
    let data: Vec<u8> = vec![10, 20, 30];
    assert!(matches!(read_frame(&data), Err(FrameError::Unterminated)));
}

#[test]
fn frame_over_cap_is_rejected() {
    let data: Vec<u8> = vec![7u8; MAX_FRAME_LEN + 2];
    assert!(matches!(read_frame(&data), Err(FrameError::TooLarge)));
}

#[test]
fn frame_at_cap_is_accepted() {
    let mut data: Vec<u8> = vec![7u8; MAX_FRAME_LEN];
    data.push(0);
    assert_eq!(read_frame(&data).unwrap().len(), MAX_FRAME_LEN);
}

#[test]
fn payload_bytes_are_canonical_json() {
    let p = payload("aaaa", "hi", 1_700_000_000);
    let bytes = encode_payload(&p);
    assert_eq!(
        String::from_utf8(bytes).unwrap(),
        "{\"onion_id\":\"aaaa\",\"text\":\"hi\",\"timestamp\":1700000000}"
    );
}

#[test]
fn envelope_round_trip() {
    let p = payload("aaaa", "hi", 1_700_000_000);
    let sig = [7u8; 64];
    let env = encode_signed_message(&p, &sig);
    let (q, s) = parse_signed_message(&env).unwrap();
    assert_eq!(q.onion_id, "aaaa");
    assert_eq!(q.text, "hi");
    assert_eq!(q.timestamp, 1_700_000_000);
    assert_eq!(s, sig.to_vec());
}

#[test]
fn envelope_round_trip_with_escapes() {
    let p = payload("aaaa", "he said \"hi\\there\"", 12);
    let sig = [0u8; 64];
    let env = encode_signed_message(&p, &sig);
    let (q, _) = parse_signed_message(&env).unwrap();
    assert_eq!(q.text, "he said \"hi\\there\"");
}

#[test]
fn envelope_is_real_json() {
    let p = payload("aaaa", "tricky \"text\" with \\ and \u{e9}", 1_700_000_000);
    let sig = [42u8; 64];
    let env = encode_signed_message(&p, &sig);
    let v: serde_json::Value = serde_json::from_slice(&env).unwrap();
    assert_eq!(v["payload"]["onion_id"], "aaaa");
    assert_eq!(v["payload"]["text"], "tricky \"text\" with \\ and \u{e9}");
    assert_eq!(v["payload"]["timestamp"], 1_700_000_000i64);
    let hex_sig: String = v["signature"].as_str().unwrap().to_string();
    assert_eq!(hex_sig, hex::encode([42u8; 64]));
}

#[test]
fn envelope_rejects_noncanonical_input() {
    let p = payload("aaaa", "hi", 5);
    let sig = [1u8; 64];
    let mut env = encode_signed_message(&p, &sig);
    // a trailing space breaks canonicity
    env.push(b' ');
    assert!(parse_signed_message(&env).is_err());
    // so does an uppercase signature digit
    let mut env2 = encode_signed_message(&p, &sig);
    let pos = env2.iter().position(|&b| b == b'0').unwrap();
    let text = String::from_utf8(env2.clone()).unwrap();
    assert!(text.contains("\"signature\":\"01010101"));
    env2[pos] = b'A';
    assert!(parse_signed_message(&env2).is_err());
}

#[test]
fn hex_matches_reference_implementation() {
    let bytes: Vec<u8> = (0u8..=255).collect();
    let mut ours: Vec<u8> = Vec::new();
    push_hex(&mut ours, &bytes);
    assert_eq!(String::from_utf8(ours.clone()).unwrap(), hex::encode(&bytes));
    let decoded = hex_decode_lower(&ours).unwrap();
    assert_eq!(decoded, bytes);
    assert_eq!(hex::decode(&ours).unwrap(), bytes);
}

#[test]
fn hex_decode_rejects_odd_and_uppercase() {
    assert!(hex_decode_lower(b"abc").is_none());
    assert!(hex_decode_lower(b"AB").is_none());
    assert!(hex_decode_lower(b"zz").is_none());
}

#[test]
fn json_string_escaping_matches_reference() {
    let mut out: Vec<u8> = Vec::new();
    push_json_string(&mut out, "a\"b\\c".as_bytes());
    assert_eq!(String::from_utf8(out).unwrap(), "\"a\\\"b\\\\c\"");
}
