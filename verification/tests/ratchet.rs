//! Ratchet sessions: handshake agreement, chain advance, decrypt failure.

use arti_chat_daemon::identity::{generate_keypair, get_validated_keypair};
use arti_chat_daemon::ratchet::{transfer_messages, Handshake, RatchetChain};

const A_ID: &str = "aaaaaaaaaaaaaaaaaaaaaaaaaaaaaaaaaaaaaaaaaaaaaaaaaaaaaaaa";
const B_ID: &str = "bbbbbbbbbbbbbbbbbbbbbbbbbbbbbbbbbbbbbbbbbbbbbbbbbbbbbbbb";

fn identity() -> ([u8; 32], [u8; 32], String) {
    let (private_hex, public_hex) = generate_keypair();
    let (sk, pk) = get_validated_keypair(&private_hex, &public_hex).unwrap();
    (sk, pk, public_hex)
}

fn handshake_pair() -> (RatchetChain, RatchetChain) {
    let (a_sk, a_pk, _) = identity();
    let (b_sk, b_pk, _) = identity();
    let (hs1, a_eph) = Handshake::initiate(A_ID, B_ID, &a_sk);
    let (hs2, b_eph) = hs1.accept(B_ID, &a_pk, &b_sk).unwrap();
    let a_chain = hs2.complete(A_ID, &b_pk, a_eph, true).unwrap();
    let b_chain = hs1.complete(B_ID, &a_pk, b_eph, false).unwrap();
    (a_chain, b_chain)
}

#[test]
fn handshake_yields_matching_chains() {
    let (a, b) = handshake_pair();
    assert_eq!(a.send_chain, b.recv_chain);
    assert_eq!(a.recv_chain, b.send_chain);
}

#[test]
fn handshake_rejects_wrong_target() {
    let (a_sk, a_pk, _) = identity();
    let (b_sk, _, _) = identity();
    let (hs1, _) = Handshake::initiate(A_ID, B_ID, &a_sk);
    assert!(hs1.accept("cccc", &a_pk, &b_sk).is_err());
}

#[test]
fn handshake_rejects_bad_signature() {
    let (a_sk, _, _) = identity();
    let (b_sk, _, _) = identity();
    let (other_pk, _, _) = {
        let (sk, pk, hexpk) = identity();
        (pk, sk, hexpk)
    };
    let (hs1, _) = Handshake::initiate(A_ID, B_ID, &a_sk);
    // verifying with a key that did not sign the transcript fails
    assert!(hs1.accept(B_ID, &other_pk, &b_sk).is_err());
}

#[test]
fn ratchet_chain_advances_per_message() {
    // the chain-advance law on concrete values: several messages in a row
    // decrypt correctly and in order
    let (mut a, mut b) = handshake_pair();
    let plaintexts: Vec<Vec<u8>> = vec![
        b"first".to_vec(),
        b"second".to_vec(),
        b"third".to_vec(),
    ];
    let out = transfer_messages(&mut a, &mut b, A_ID, &plaintexts);
    assert_eq!(out, plaintexts);
    assert_eq!(a.send_chain, b.recv_chain);
}

#[test]
fn ratchet_decrypt_failure_keeps_the_chain() {
    let (mut a, mut b) = handshake_pair();
    let mut msg = a.encrypt(b"hello", A_ID.to_string());
    assert_eq!(msg.from, A_ID);
    // a corrupted ciphertext is rejected and does not advance the chain
    msg.data[0] ^= 1;
    assert!(b.decrypt(&msg).is_err());
    // the original still decrypts: the receive chain stayed put
    msg.data[0] ^= 1;
    assert_eq!(b.decrypt(&msg).unwrap(), b"hello".to_vec());
}

#[test]
fn verifying_key_from_hex_validates() {
    let (_, _, public_hex) = identity();
    assert!(arti_chat_daemon::ratchet::verifying_key_from_hex(&public_hex).is_ok());
    assert!(arti_chat_daemon::ratchet::verifying_key_from_hex("xyz").is_err());
    assert!(arti_chat_daemon::ratchet::verifying_key_from_hex("beef").is_err());
}

#[test]
fn transcript_is_separator_delimited() {
    let t = Handshake::transcript("ab", "cd", &[9u8; 32]);
    let mut expected: Vec<u8> = b"ab".to_vec();
    expected.push(0);
    expected.extend_from_slice(b"cd");
    expected.push(0);
    expected.extend_from_slice(&[9u8; 32]);
    assert_eq!(t, expected);
}
