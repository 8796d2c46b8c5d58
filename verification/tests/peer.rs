//! The peer paths end to end: signing, dispatch of inbound frames, and the
//! outbound follow-ups.

use arti_chat_daemon::db::{init_database, ContactDb, Store};
use arti_chat_daemon::dispatch::{
    build_outbound_frame, handle_inbound_frame, retry_follow_up, send_message_follow_up,
};
use arti_chat_daemon::frame::read_frame;
use arti_chat_daemon::identity::{ensure_identity, generate_keypair, get_validated_keypair};
use arti_chat_daemon::message::{encode_payload, parse_signed_message, sign_payload, verify_signed_payload, MessagePayload};
use arti_chat_daemon::ui_focus::FocusState;
use ed25519_dalek::Verifier;

const A_ID: &str = "aaaaaaaaaaaaaaaaaaaaaaaaaaaaaaaaaaaaaaaaaaaaaaaaaaaaaaaa";
const B_ID: &str = "bbbbbbbbbbbbbbbbbbbbbbbbbbbbbbbbbbbbbbbbbbbbbbbbbbbbbbbb";

struct Peer {
    secret: [u8; 32],
    public_hex: String,
}

fn make_peer() -> Peer {
    let (private_hex, public_hex) = generate_keypair();
    let (secret, _) = get_validated_keypair(&private_hex, &public_hex).unwrap();
    Peer { secret, public_hex }
}

fn store_knowing(id: &str, public_hex: &str) -> Store {
    let mut s = init_database();
    s.insert_contact(ContactDb {
        onion_id: id.to_string(),
        nickname: "peer".to_string(),
        public_key: public_hex.to_string(),
        last_viewed_at: 0,
    })
    .unwrap();
    s
}

#[test]
fn signing_round_trip_verifies() {
    let peer = make_peer();
    let p = MessagePayload { onion_id: A_ID.to_string(), text: "hi".to_string(), timestamp: 7 };
    let sig = sign_payload(&peer.secret, &p);
    assert!(verify_signed_payload(&peer.public_hex, &p, &sig).is_ok());
}

#[test]
fn signing_matches_reference_implementation() {
    let peer = make_peer();
    let p = MessagePayload { onion_id: A_ID.to_string(), text: "hi".to_string(), timestamp: 7 };
    let sig = sign_payload(&peer.secret, &p);
    let vk_bytes: [u8; 32] = hex::decode(&peer.public_hex).unwrap().try_into().unwrap();
    let vk = ed25519_dalek::VerifyingKey::from_bytes(&vk_bytes).unwrap();
    let msg = encode_payload(&p);
    vk.verify(&msg, &ed25519_dalek::Signature::from_bytes(&sig)).unwrap();
}

#[test]
fn flipping_payload_or_signature_fails_verification() {
    let peer = make_peer();
    let p = MessagePayload { onion_id: A_ID.to_string(), text: "hi".to_string(), timestamp: 7 };
    let mut sig = sign_payload(&peer.secret, &p);
    let q = MessagePayload { onion_id: A_ID.to_string(), text: "hj".to_string(), timestamp: 7 };
    assert!(verify_signed_payload(&peer.public_hex, &q, &sig).is_err());
    sig[10] ^= 1;
    assert!(verify_signed_payload(&peer.public_hex, &p, &sig).is_err());
}

#[test]
fn inbound_frame_from_known_contact_is_stored_and_announced() {
    // peer A, a known contact of B, sends "hi" at 1_700_000_000
    let a = make_peer();
    let frame = build_outbound_frame(&a.secret, A_ID, "hi", 1_700_000_000);
    let body = read_frame(&frame).unwrap();

    let mut b_store = store_knowing(A_ID, &a.public_hex);
    let focus = FocusState { focussed: false };
    let out = handle_inbound_frame(&mut b_store, &focus, &body).unwrap();

    assert_eq!(b_store.messages.len(), 1);
    let m = &b_store.messages[0];
    assert_eq!(m.contact_onion_id, A_ID);
    assert_eq!(m.body, "hi");
    assert_eq!(m.timestamp, 1_700_000_000);
    assert!(m.is_incoming);
    assert!(m.verified_status);
    assert_eq!(out.stored, Some(1));
    let event = String::from_utf8(out.event.unwrap()).unwrap();
    assert_eq!(event, format!("{{\"onion_id\":\"{A_ID}\"}}\n"));
    assert!(out.notify, "notifications default on and the UI is unfocussed");
}

#[test]
fn inbound_frame_from_unknown_sender_is_dropped_silently() {
    let a = make_peer();
    let frame = build_outbound_frame(&a.secret, A_ID, "hi", 1_700_000_000);
    let body = read_frame(&frame).unwrap();

    let mut b_store = init_database();
    let focus = FocusState { focussed: false };
    let out = handle_inbound_frame(&mut b_store, &focus, &body).unwrap();
    assert!(b_store.messages.is_empty());
    assert!(out.stored.is_none());
    assert!(out.event.is_none());
    assert!(!out.notify);
}

#[test]
fn inbound_frame_with_wrong_key_is_stored_unverified() {
    let a = make_peer();
    let other = make_peer();
    let frame = build_outbound_frame(&a.secret, A_ID, "hi", 1_700_000_000);
    let body = read_frame(&frame).unwrap();

    // B stored a different key for A, so verification fails but the row stays
    let mut b_store = store_knowing(A_ID, &other.public_hex);
    let focus = FocusState { focussed: true };
    let out = handle_inbound_frame(&mut b_store, &focus, &body).unwrap();
    assert_eq!(b_store.messages.len(), 1);
    assert!(!b_store.messages[0].verified_status);
    assert!(out.event.is_some());
    assert!(!out.notify, "no notification while the UI is focussed");
}

#[test]
fn garbled_inbound_frame_is_an_encoding_error() {
    let mut b_store = init_database();
    let focus = FocusState { focussed: true };
    let body: Vec<u8> = b"{\"payload\":oops".to_vec();
    assert!(handle_inbound_frame(&mut b_store, &focus, &body).is_err());
}

#[test]
fn disabled_notifications_suppress_the_alert() {
    let a = make_peer();
    let frame = build_outbound_frame(&a.secret, A_ID, "hi", 1_700_000_000);
    let body = read_frame(&frame).unwrap();
    let mut b_store = store_knowing(A_ID, &a.public_hex);
    b_store.config_set("enable_notifications", "false").unwrap();
    let focus = FocusState { focussed: false };
    let out = handle_inbound_frame(&mut b_store, &focus, &body).unwrap();
    assert!(!out.notify);
}

#[test]
fn send_follow_up_marks_delivery_and_hints_reload() {
    let mut s = store_knowing(B_ID, "00");
    let id = s
        .insert_message(arti_chat_daemon::db::MessageDb {
            id: 0,
            contact_onion_id: B_ID.to_string(),
            body: "hello".to_string(),
            timestamp: 50,
            is_incoming: false,
            sent_status: false,
            verified_status: false,
        })
        .unwrap()
        .expect_i64()
        .unwrap();
    let event = send_message_follow_up(&mut s, id, B_ID, true);
    assert!(s.messages[0].sent_status);
    assert_eq!(String::from_utf8(event).unwrap(), format!("{{\"onion_id\":\"{B_ID}\"}}\n"));
}

#[test]
fn retry_tick_resends_within_window() {
    // an undelivered outbound message, 45 seconds old, is selected and
    // marked delivered after a successful resend
    let now: i64 = 1_000_000;
    let mut s = store_knowing(B_ID, "00");
    s.insert_message(arti_chat_daemon::db::MessageDb {
        id: 0,
        contact_onion_id: B_ID.to_string(),
        body: "hello".to_string(),
        timestamp: now - 45,
        is_incoming: false,
        sent_status: false,
        verified_status: false,
    })
    .unwrap();
    let failed = s.failed_messages(now);
    assert_eq!(failed.len(), 1);
    let event = retry_follow_up(&mut s, failed[0].id, B_ID, true);
    assert!(event.is_some());
    assert!(s.messages[0].sent_status);
    assert!(s.failed_messages(now).is_empty());
    // a failed resend leaves the row for the next tick
    let mut s2 = store_knowing(B_ID, "00");
    s2.insert_message(arti_chat_daemon::db::MessageDb {
        id: 0,
        contact_onion_id: B_ID.to_string(),
        body: "x".to_string(),
        timestamp: now - 45,
        is_incoming: false,
        sent_status: false,
        verified_status: false,
    })
    .unwrap();
    assert!(retry_follow_up(&mut s2, 1, B_ID, false).is_none());
    assert_eq!(s2.failed_messages(now).len(), 1);
}

#[test]
fn identity_is_created_once_and_reused() {
    let mut s = init_database();
    let (sk1, pk1) = ensure_identity(&mut s, A_ID).unwrap();
    assert_eq!(s.users.len(), 1);
    assert_eq!(s.users[0].onion_id, A_ID);
    assert_eq!(s.users[0].nickname, "Me");
    let (sk2, pk2) = ensure_identity(&mut s, A_ID).unwrap();
    assert_eq!(s.users.len(), 1);
    assert_eq!(sk1, sk2);
    assert_eq!(pk1, pk2);
}

#[test]
fn invalid_stored_keys_are_rejected() {
    assert!(get_validated_keypair("zz", "00").is_err());
    assert!(get_validated_keypair(&"00".repeat(31), &"00".repeat(32)).is_err());
    let (private_hex, _) = generate_keypair();
    // all-ones is not a canonical verifying key encoding issue, but a wrong
    // length certainly fails
    assert!(get_validated_keypair(&private_hex, "beef").is_err());
}
