//! Trusted bindings to the cryptographic primitives.
//!
//! Every function here wraps one call into an outside cryptography crate.
//! What a primitive computes is named by an uninterpreted spec function —
//! Ed25519 signatures, X25519 shared secrets, HKDF output and the AEAD are
//! all deterministic in their inputs — and the contracts state only what the
//! crates' documentation promises: signing yields a signature that verifies
//! under the matching public key, Diffie–Hellman agrees for the two sides,
//! and the AEAD opens what it sealed.

use vstd::prelude::*;
use chacha20poly1305::aead::Aead;
use chacha20poly1305::KeyInit;
use ed25519_dalek::Signer;

verus! {

/// The verifying key derived from 32 Ed25519 secret bytes.
pub uninterp spec fn ed25519_public_key(secret: Seq<u8>) -> Seq<u8>;

/// The Ed25519 signature of a message under 32 secret bytes; the scheme is
/// deterministic.
pub uninterp spec fn ed25519_signature(secret: Seq<u8>, message: Seq<u8>) -> Seq<u8>;

/// Whether strict Ed25519 verification accepts this triple.
pub uninterp spec fn ed25519_verifies(
    public_key: Seq<u8>,
    message: Seq<u8>,
    signature: Seq<u8>,
) -> bool;

/// Whether 32 bytes decode to a valid Ed25519 verifying key.
pub uninterp spec fn ed25519_key_valid(public_key: Seq<u8>) -> bool;

/// The X25519 public key of 32 secret bytes.
pub uninterp spec fn x25519_public(secret: Seq<u8>) -> Seq<u8>;

/// The X25519 shared secret of a secret and a peer public key.
pub uninterp spec fn x25519_shared(secret: Seq<u8>, peer_public: Seq<u8>) -> Seq<u8>;

/// HKDF-SHA-256 extraction with an empty salt.
pub uninterp spec fn hkdf_extract(ikm: Seq<u8>) -> Seq<u8>;

/// 32 bytes of HKDF-SHA-256 output for a pseudo-random key, with empty info.
pub uninterp spec fn hkdf_expand32(prk: Seq<u8>) -> Seq<u8>;

/// The ChaCha20-Poly1305 ciphertext of a plaintext under a key and nonce.
pub uninterp spec fn chacha_seal(key: Seq<u8>, nonce: Seq<u8>, plaintext: Seq<u8>) -> Seq<u8>;

/// What ChaCha20-Poly1305 decryption yields for a ciphertext: the plaintext,
/// or nothing when tag verification fails.
pub uninterp spec fn chacha_open(key: Seq<u8>, nonce: Seq<u8>, ciphertext: Seq<u8>) -> Option<
    Seq<u8>,
>;

/// Largest plaintext the AEAD wrapper accepts; far below the algorithm's own
/// bound, so sealing cannot fail.
pub const AEAD_MAX_PLAINTEXT: usize = 0x10000000;

/// Relies on `rand::random`: 32 bytes from the operating system's randomness,
/// used as an Ed25519 secret key. Nothing can be promised of a random value.
#[verifier::external_body]
pub fn generate_signing_key() -> [u8; 32] {
    rand::random::<[u8; 32]>()
}

/// Relies on `ed25519_dalek::SigningKey::from_bytes` and `verifying_key`:
/// any 32 bytes form a signing key, and its verifying key round-trips
/// through `VerifyingKey::from_bytes`.
#[verifier::external_body]
pub fn signing_public_key(secret: &[u8; 32]) -> (r: [u8; 32])
    ensures
        r@ == ed25519_public_key(secret@),
        ed25519_key_valid(r@),
{
    ed25519_dalek::SigningKey::from_bytes(secret).verifying_key().to_bytes()
}

/// Relies on `ed25519_dalek::Signer::sign`: deterministic RFC 8032 signing,
/// whose output `verify_strict` accepts under the matching verifying key.
#[verifier::external_body]
pub fn sign(secret: &[u8; 32], message: &[u8]) -> (r: [u8; 64])
    ensures
        r@ == ed25519_signature(secret@, message@),
        ed25519_verifies(ed25519_public_key(secret@), message@, r@),
{
    let key = ed25519_dalek::SigningKey::from_bytes(secret);
    key.sign(message).to_bytes()
}

/// Relies on `ed25519_dalek::VerifyingKey::from_bytes` (`None` exactly when
/// the bytes are rejected) and `verify_strict` (deterministic in its inputs).
#[verifier::external_body]
pub fn verify_signature(public_key: &[u8], message: &[u8], signature: &[u8]) -> (r: Option<bool>)
    requires
        public_key@.len() == 32,
        signature@.len() == 64,
    ensures
        match r {
            Some(b) => ed25519_key_valid(public_key@) && b == ed25519_verifies(
                public_key@,
                message@,
                signature@,
            ),
            None => !ed25519_key_valid(public_key@),
        },
{
    let pk: [u8; 32] = public_key.try_into().expect("the key is 32 bytes");
    let sg: [u8; 64] = signature.try_into().expect("the signature is 64 bytes");
    match ed25519_dalek::VerifyingKey::from_bytes(&pk) {
        Ok(vk) => {
            let sig = ed25519_dalek::Signature::from_bytes(&sg);
            Some(vk.verify_strict(message, &sig).is_ok())
        },
        Err(_) => None,
    }
}

/// Relies on `ed25519_dalek::VerifyingKey::from_bytes`: it accepts exactly
/// the byte strings that decode to a point of the curve.
#[verifier::external_body]
pub fn validate_verifying_key(b: &[u8]) -> (r: bool)
    requires
        b@.len() == 32,
    ensures
        r == ed25519_key_valid(b@),
{
    let arr: [u8; 32] = b.try_into().expect("the key is 32 bytes");
    ed25519_dalek::VerifyingKey::from_bytes(&arr).is_ok()
}

/// Relies on `rand::random`: 32 bytes from the operating system's randomness,
/// used as an X25519 secret. Nothing can be promised of a random value.
#[verifier::external_body]
pub fn generate_dh_secret() -> [u8; 32] {
    rand::random::<[u8; 32]>()
}

/// Relies on `x25519_dalek::PublicKey::from(&StaticSecret)`: the public key
/// is a function of the secret bytes alone.
#[verifier::external_body]
pub fn dh_public_key(secret: &[u8; 32]) -> (r: [u8; 32])
    ensures
        r@ == x25519_public(secret@),
{
    let s = x25519_dalek::StaticSecret::from(*secret);
    x25519_dalek::PublicKey::from(&s).to_bytes()
}

/// Relies on `x25519_dalek::StaticSecret::diffie_hellman`: the shared secret
/// is a function of the two inputs, and the two sides of the exchange agree —
/// for key bytes `a` and `b`, `dh(a, public(b)) == dh(b, public(a))`.
#[verifier::external_body]
pub fn diffie_hellman(secret: &[u8; 32], peer_public: &[u8; 32]) -> (r: [u8; 32])
    ensures
        r@ == x25519_shared(secret@, peer_public@),
        forall|t: Seq<u8>|
            peer_public@ == x25519_public(t) ==> r@ == x25519_shared(t, x25519_public(secret@)),
{
    let s = x25519_dalek::StaticSecret::from(*secret);
    let p = x25519_dalek::PublicKey::from(*peer_public);
    s.diffie_hellman(&p).to_bytes()
}

/// Relies on `hkdf::Hkdf::<Sha256>::new` (extract with empty salt) and
/// `expand` (deterministic; cannot fail for a 32-byte output). Both chain
/// keys are expanded from the same pseudo-random key with empty info.
#[verifier::external_body]
pub fn derive_chain_pair(shared: &[u8; 32]) -> (r: ([u8; 32], [u8; 32]))
    ensures
        r.0@ == hkdf_expand32(hkdf_extract(shared@)),
        r.1@ == hkdf_expand32(hkdf_extract(shared@)),
{
    let hk = hkdf::Hkdf::<sha2::Sha256>::new(None, shared);
    let mut a = [0u8; 32];
    let mut b = [0u8; 32];
    hk.expand(&[], &mut a).expect("32 bytes is a valid HKDF output length");
    hk.expand(&[], &mut b).expect("32 bytes is a valid HKDF output length");
    (a, b)
}

/// Relies on `hkdf::Hkdf::<Sha256>::from_prk` (a 32-byte chain key is a valid
/// pseudo-random key) and `expand` (deterministic; cannot fail for 32 bytes).
/// The message key and the next chain key are expanded alike, with empty
/// info, as the wire protocol fixes them.
#[verifier::external_body]
pub fn ratchet_step(chain: &[u8; 32]) -> (r: ([u8; 32], [u8; 32]))
    ensures
        r.0@ == hkdf_expand32(chain@),
        r.1@ == hkdf_expand32(chain@),
{
    let hk = hkdf::Hkdf::<sha2::Sha256>::from_prk(chain).expect("32 bytes is a valid PRK");
    let mut message_key = [0u8; 32];
    let mut next_chain = [0u8; 32];
    hk.expand(&[], &mut message_key).expect("32 bytes is a valid HKDF output length");
    hk.expand(&[], &mut next_chain).expect("32 bytes is a valid HKDF output length");
    (message_key, next_chain)
}

/// Relies on `rand::random`: a fresh 96-bit nonce from the operating
/// system's randomness. Nothing can be promised of a random value.
#[verifier::external_body]
pub fn random_nonce() -> [u8; 12] {
    rand::random::<[u8; 12]>()
}

/// Relies on `chacha20poly1305::ChaCha20Poly1305::encrypt`: deterministic in
/// key, nonce and plaintext; it can fail only for plaintexts far above the
/// admitted bound; and `decrypt` accepts its output.
#[verifier::external_body]
pub fn aead_encrypt(key: &[u8; 32], nonce: &[u8; 12], plaintext: &[u8]) -> (r: Vec<u8>)
    requires
        plaintext@.len() <= AEAD_MAX_PLAINTEXT,
    ensures
        r@ == chacha_seal(key@, nonce@, plaintext@),
        chacha_open(key@, nonce@, r@) == Some(plaintext@),
{
    let cipher = chacha20poly1305::ChaCha20Poly1305::new(&chacha20poly1305::Key::from(*key));
    cipher
        .encrypt(&chacha20poly1305::Nonce::from(*nonce), plaintext)
        .expect("plaintext is within the AEAD's length bound")
}

/// Relies on `chacha20poly1305::ChaCha20Poly1305::decrypt`: deterministic in
/// key, nonce and ciphertext; it fails exactly when tag verification fails.
#[verifier::external_body]
pub fn aead_decrypt(key: &[u8; 32], nonce: &[u8; 12], ciphertext: &[u8]) -> (r: Option<Vec<u8>>)
    ensures
        match r {
            Some(pt) => chacha_open(key@, nonce@, ciphertext@) == Some(pt@),
            None => chacha_open(key@, nonce@, ciphertext@) is None,
        },
{
    let cipher = chacha20poly1305::ChaCha20Poly1305::new(&chacha20poly1305::Key::from(*key));
    cipher.decrypt(&chacha20poly1305::Nonce::from(*nonce), ciphertext).ok()
}

} // verus!
