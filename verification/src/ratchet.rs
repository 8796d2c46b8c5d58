//! Symmetric ratchet providing forward secrecy for a chat session.
//!
//! A session is bootstrapped by a mutual handshake: each side signs the
//! transcript of the exchange with its identity key and contributes an
//! ephemeral Diffie–Hellman key. The shared secret is expanded into chain
//! keys; per message the sender derives a message key and the next chain key
//! from its send chain and encrypts with ChaCha20-Poly1305 under a fresh
//! random nonce. The receiver mirrors the step on its receive chain, and the
//! chain advances only when AEAD verification succeeds, so one corrupted
//! ciphertext cannot desynchronize a session.

use vstd::prelude::*;
use crate::crypto::{
    aead_decrypt, aead_encrypt, chacha_open, chacha_seal, derive_chain_pair, dh_public_key,
    diffie_hellman, ed25519_key_valid, ed25519_public_key, ed25519_signature, ed25519_verifies,
    generate_dh_secret, hkdf_expand32, hkdf_extract, random_nonce, ratchet_step, sign,
    verify_signature, x25519_public, x25519_shared, AEAD_MAX_PLAINTEXT,
};
use crate::error::RatchetError;
use crate::json::{hex_decode_lower, hex_of, lemma_hex_of_shape, push_hex, is_hex_digit_lower};
use crate::text::{lemma_ascii_valid_utf8, string_from_utf8, text_bytes};
use vstd::pervasive::unreached;

verus! {

/// Send and receive chain of one session.
pub struct RatchetChain {
    /// Chain key that encrypts outgoing messages.
    pub send_chain: [u8; 32],
    /// Chain key that decrypts incoming messages.
    pub recv_chain: [u8; 32],
}

/// Encrypted ciphertext as it travels between the peers.
pub struct EncryptedMessage {
    /// Hidden-service address of the sender.
    pub from: String,
    /// Nonce that makes the keystream unique.
    pub nonce: [u8; 12],
    /// The sealed payload.
    pub data: Vec<u8>,
}

/// A decrypted message as handed to the application.
pub struct PlaintextPayload {
    /// Hidden-service address of the sender or receiver.
    pub onion_id: String,
    /// Seconds since the epoch at sending or receiving.
    pub timestamp: i64,
    /// Content of the message.
    pub message: String,
}

impl RatchetChain {
    /// Encrypt a message and advance the send chain one step.
    pub fn encrypt(&mut self, plaintext: &[u8], self_onion_id: String) -> (r: EncryptedMessage)
        requires
            plaintext@.len() <= AEAD_MAX_PLAINTEXT,
        ensures
            final(self).send_chain@ == hkdf_expand32(old(self).send_chain@),
            final(self).recv_chain@ == old(self).recv_chain@,
            r.from == self_onion_id,
            r.data@ == chacha_seal(hkdf_expand32(old(self).send_chain@), r.nonce@, plaintext@),
            chacha_open(hkdf_expand32(old(self).send_chain@), r.nonce@, r.data@) == Some(
                plaintext@,
            ),
    {
        let (message_key, next_chain) = ratchet_step(&self.send_chain);
        self.send_chain = next_chain;
        let nonce = random_nonce();
        let data = aead_encrypt(&message_key, &nonce, plaintext);
        EncryptedMessage { from: self_onion_id, nonce, data }
    }

    /// Decrypt an incoming message; the receive chain advances exactly when
    /// AEAD verification succeeds, and stays put on failure.
    pub fn decrypt(&mut self, msg: &EncryptedMessage) -> (r: Result<Vec<u8>, RatchetError>)
        ensures
            match r {
                Ok(pt) => {
                    &&& chacha_open(hkdf_expand32(old(self).recv_chain@), msg.nonce@, msg.data@)
                        == Some(pt@)
                    &&& final(self).recv_chain@ == hkdf_expand32(old(self).recv_chain@)
                    &&& final(self).send_chain@ == old(self).send_chain@
                },
                Err(e) => {
                    &&& e is MessageDecryptError
                    &&& chacha_open(hkdf_expand32(old(self).recv_chain@), msg.nonce@, msg.data@)
                        is None
                    &&& *final(self) == *old(self)
                },
            },
    {
        let (message_key, next_chain) = ratchet_step(&self.recv_chain);
        match aead_decrypt(&message_key, &msg.nonce, msg.data.as_slice()) {
            Some(pt) => {
                self.recv_chain = next_chain;
                Ok(pt)
            },
            None => Err(RatchetError::MessageDecryptError),
        }
    }
}

/// Law: over a whole sequence of messages, every ciphertext produced on the
/// send side decrypts on the matching receive side to the original
/// plaintext, in order, and the two chains stay matched throughout.
pub fn transfer_messages(
    sender: &mut RatchetChain,
    receiver: &mut RatchetChain,
    sender_id: &str,
    plaintexts: &Vec<Vec<u8>>,
) -> (out: Vec<Vec<u8>>)
    requires
        old(sender).send_chain@ == old(receiver).recv_chain@,
        forall|i: int|
            0 <= i < plaintexts@.len() ==> (#[trigger] plaintexts@[i])@.len()
                <= AEAD_MAX_PLAINTEXT,
    ensures
        out@.len() == plaintexts@.len(),
        forall|i: int| 0 <= i < out@.len() ==> (#[trigger] out@[i])@ == plaintexts@[i]@,
        final(sender).send_chain@ == final(receiver).recv_chain@,
{
    let mut out: Vec<Vec<u8>> = Vec::new();
    let mut i: usize = 0;
    while i < plaintexts.len()
        invariant
            i <= plaintexts@.len(),
            out@.len() == i,
            sender.send_chain@ == receiver.recv_chain@,
            forall|k: int| 0 <= k < i ==> (#[trigger] out@[k])@ == plaintexts@[k]@,
            forall|k: int|
                0 <= k < plaintexts@.len() ==> (#[trigger] plaintexts@[k])@.len()
                    <= AEAD_MAX_PLAINTEXT,
        decreases plaintexts@.len() - i,
    {
        let msg = sender.encrypt(plaintexts[i].as_slice(), String::from_str(sender_id));
        match receiver.decrypt(&msg) {
            Ok(pt) => {
                out.push(pt);
            },
            Err(_) => {
                proof {
                    assert(false);
                }
                return unreached();
            },
        }
        i = i + 1;
    }
    out
}

/// Handshake message establishing or accepting a session.
pub struct Handshake {
    /// Origin of the handshake.
    pub from: String,
    /// Receiver of the handshake.
    pub to: String,
    /// Ephemeral public key contributed to the session.
    pub ephemeral_pub_key: [u8; 32],
    /// Hex-encoded identity signature over the handshake transcript.
    pub signature: String,
}

/// The bytes both sides sign: sender, receiver and ephemeral key, with zero
/// separators.
pub open spec fn spec_transcript(from: Seq<u8>, to: Seq<u8>, ephemeral: Seq<u8>) -> Seq<u8> {
    from + seq![0u8] + to + seq![0u8] + ephemeral
}

/// A handshake's signature field holds a valid identity signature over its
/// transcript under this public key.
pub open spec fn spec_handshake_signed(h: Handshake, public_key: Seq<u8>) -> bool {
    ed25519_key_valid(public_key) && exists|sig: Seq<u8>|
        #![trigger ed25519_verifies(public_key, spec_transcript(text_bytes(h.from@), text_bytes(h.to@), h.ephemeral_pub_key@), sig)]
        sig.len() == 64 && text_bytes(h.signature@) == hex_of(sig) && ed25519_verifies(
            public_key,
            spec_transcript(text_bytes(h.from@), text_bytes(h.to@), h.ephemeral_pub_key@),
            sig,
        )
}

impl Handshake {
    /// The transcript that a handshake's signature covers.
    pub fn transcript(from: &str, to: &str, ephemeral_pub_key: &[u8; 32]) -> (r: Vec<u8>)
        ensures
            r@ == spec_transcript(text_bytes(from@), text_bytes(to@), ephemeral_pub_key@),
    {
        let mut t: Vec<u8> = Vec::new();
        crate::json::push_all(&mut t, from.as_bytes());
        t.push(0);
        crate::json::push_all(&mut t, to.as_bytes());
        t.push(0);
        crate::json::push_all(&mut t, ephemeral_pub_key.as_slice());
        proof {
            assert(t@ =~= spec_transcript(text_bytes(from@), text_bytes(to@), ephemeral_pub_key@));
        }
        t
    }

    /// Open a session towards a peer: draw an ephemeral key, sign the
    /// transcript, and hand back the handshake with the ephemeral secret.
    pub fn initiate(self_onion_id: &str, peer_onion_id: &str, self_private_key: &[u8; 32]) -> (r: (
        Handshake,
        [u8; 32],
    ))
        ensures
            r.0.from@ == self_onion_id@,
            r.0.to@ == peer_onion_id@,
            r.0.ephemeral_pub_key@ == x25519_public(r.1@),
            spec_handshake_signed(r.0, ed25519_public_key(self_private_key@)),
    {
        let ephemeral_secret = generate_dh_secret();
        let ephemeral_pub_key = dh_public_key(&ephemeral_secret);
        let _own_public = crate::crypto::signing_public_key(self_private_key);
        let t = Self::transcript(self_onion_id, peer_onion_id, &ephemeral_pub_key);
        let sig = sign(self_private_key, t.as_slice());
        let signature = hex_string(&sig);
        let h = Handshake {
            from: String::from_str(self_onion_id),
            to: String::from_str(peer_onion_id),
            ephemeral_pub_key,
            signature,
        };
        proof {
            let sigseq = ed25519_signature(
                self_private_key@,
                spec_transcript(text_bytes(h.from@), text_bytes(h.to@), h.ephemeral_pub_key@),
            );
            assert(ed25519_verifies(
                ed25519_public_key(self_private_key@),
                spec_transcript(text_bytes(h.from@), text_bytes(h.to@), h.ephemeral_pub_key@),
                sigseq,
            ));
        }
        (h, ephemeral_secret)
    }

    /// Accept an incoming handshake: check that it is addressed to this
    /// peer, verify its signature with the contact's stored key, and reply
    /// with an own signed ephemeral key.
    pub fn accept(
        &self,
        self_onion_id: &str,
        peer_public_key: &[u8; 32],
        self_private_key: &[u8; 32],
    ) -> (r: Result<(Handshake, [u8; 32]), RatchetError>)
        ensures
            match r {
                Ok(p) => {
                    &&& self.to@ == self_onion_id@
                    &&& spec_handshake_signed(*self, peer_public_key@)
                    &&& p.0.from@ == self_onion_id@
                    &&& p.0.to@ == self.from@
                    &&& p.0.ephemeral_pub_key@ == x25519_public(p.1@)
                    &&& spec_handshake_signed(p.0, ed25519_public_key(self_private_key@))
                },
                Err(RatchetError::InvalidHandshakeTarget) => self.to@ != self_onion_id@,
                Err(RatchetError::SignatureInvalid) => self.to@ == self_onion_id@
                    && !spec_handshake_signed(*self, peer_public_key@),
                Err(_) => false,
            },
    {
        if !crate::text::str_eq(self.to.as_str(), self_onion_id) {
            return Err(RatchetError::InvalidHandshakeTarget);
        }
        if !verify_handshake(self, peer_public_key) {
            return Err(RatchetError::SignatureInvalid);
        }
        let ephemeral_secret = generate_dh_secret();
        let ephemeral_pub_key = dh_public_key(&ephemeral_secret);
        let _own_public = crate::crypto::signing_public_key(self_private_key);
        let t = Self::transcript(self_onion_id, self.from.as_str(), &ephemeral_pub_key);
        let sig = sign(self_private_key, t.as_slice());
        let signature = hex_string(&sig);
        let reply = Handshake {
            from: String::from_str(self_onion_id),
            to: self.from.clone(),
            ephemeral_pub_key,
            signature,
        };
        proof {
            let sigseq = ed25519_signature(
                self_private_key@,
                spec_transcript(
                    text_bytes(reply.from@),
                    text_bytes(reply.to@),
                    reply.ephemeral_pub_key@,
                ),
            );
            assert(ed25519_verifies(
                ed25519_public_key(self_private_key@),
                spec_transcript(
                    text_bytes(reply.from@),
                    text_bytes(reply.to@),
                    reply.ephemeral_pub_key@,
                ),
                sigseq,
            ));
        }
        Ok((reply, ephemeral_secret))
    }

    /// Complete the handshake: verify the peer's reply, agree on the shared
    /// secret, and derive the session's chains. Both chain keys come from
    /// the same expansion of the shared secret, so initiator and responder
    /// end up matched either way.
    pub fn complete(
        &self,
        self_onion_id: &str,
        peer_public_key: &[u8; 32],
        self_ephemeral_secret: [u8; 32],
        is_initiator: bool,
    ) -> (r: Result<RatchetChain, RatchetError>)
        ensures
            ({
                let shared = x25519_shared(self_ephemeral_secret@, self.ephemeral_pub_key@);
                match r {
                    Ok(rc) => {
                        &&& self.to@ == self_onion_id@
                        &&& spec_handshake_signed(*self, peer_public_key@)
                        &&& rc.send_chain@ == hkdf_expand32(hkdf_extract(shared))
                        &&& rc.recv_chain@ == hkdf_expand32(hkdf_extract(shared))
                        &&& forall|t: Seq<u8>|
                            self.ephemeral_pub_key@ == x25519_public(t) ==> shared == x25519_shared(
                                t,
                                x25519_public(self_ephemeral_secret@),
                            )
                    },
                    Err(RatchetError::InvalidHandshakeTarget) => self.to@ != self_onion_id@,
                    Err(RatchetError::SignatureInvalid) => self.to@ == self_onion_id@
                        && !spec_handshake_signed(*self, peer_public_key@),
                    Err(_) => false,
                }
            }),
    {
        if !crate::text::str_eq(self.to.as_str(), self_onion_id) {
            return Err(RatchetError::InvalidHandshakeTarget);
        }
        if !verify_handshake(self, peer_public_key) {
            return Err(RatchetError::SignatureInvalid);
        }
        let shared = diffie_hellman(&self_ephemeral_secret, &self.ephemeral_pub_key);
        let (a, b) = derive_chain_pair(&shared);
        let (send_chain, recv_chain) = if is_initiator {
            (a, b)
        } else {
            (b, a)
        };
        Ok(RatchetChain { send_chain, recv_chain })
    }
}

/// Hex-encode 64 signature bytes into text.
fn hex_string(sig: &[u8; 64]) -> (r: String)
    ensures
        text_bytes(r@) == hex_of(sig@),
{
    let mut h: Vec<u8> = Vec::new();
    push_hex(&mut h, sig.as_slice());
    proof {
        lemma_hex_of_shape(sig@);
        assert forall|i: int| 0 <= i < h@.len() implies #[trigger] h@[i] < 128 by {
            assert(is_hex_digit_lower(hex_of(sig@)[i]));
        }
        lemma_ascii_valid_utf8(h@);
    }
    match string_from_utf8(h) {
        Some(s) => s,
        None => {
            proof {
                assert(false);
            }
            unreached()
        },
    }
}

/// Check a handshake's hex-encoded signature over its transcript.
fn verify_handshake(h: &Handshake, public_key: &[u8; 32]) -> (r: bool)
    ensures
        r == spec_handshake_signed(*h, public_key@),
{
    let sig_bytes = match hex_decode_lower(h.signature.as_str().as_bytes()) {
        Some(b) => b,
        None => {
            proof {
                if spec_handshake_signed(*h, public_key@) {
                    let sig = choose|sig: Seq<u8>|
                        sig.len() == 64 && text_bytes(h.signature@) == hex_of(sig)
                            && ed25519_verifies(
                            public_key@,
                            spec_transcript(
                                text_bytes(h.from@),
                                text_bytes(h.to@),
                                h.ephemeral_pub_key@,
                            ),
                            sig,
                        );
                    assert(text_bytes(h.signature@) == hex_of(sig));
                }
            }
            return false;
        },
    };
    if sig_bytes.len() != 64 {
        proof {
            if spec_handshake_signed(*h, public_key@) {
                let sig = choose|sig: Seq<u8>|
                    sig.len() == 64 && text_bytes(h.signature@) == hex_of(sig) && ed25519_verifies(
                        public_key@,
                        spec_transcript(
                            text_bytes(h.from@),
                            text_bytes(h.to@),
                            h.ephemeral_pub_key@,
                        ),
                        sig,
                    );
                crate::json::lemma_hex_of_injective(sig_bytes@, sig);
            }
        }
        return false;
    }
    let t = Handshake::transcript(h.from.as_str(), h.to.as_str(), &h.ephemeral_pub_key);
    let ok = match verify_signature(public_key, t.as_slice(), sig_bytes.as_slice()) {
        Some(b) => b,
        None => false,
    };
    proof {
        if spec_handshake_signed(*h, public_key@) {
            let sig = choose|sig: Seq<u8>|
                sig.len() == 64 && text_bytes(h.signature@) == hex_of(sig) && ed25519_verifies(
                    public_key@,
                    spec_transcript(text_bytes(h.from@), text_bytes(h.to@), h.ephemeral_pub_key@),
                    sig,
                );
            crate::json::lemma_hex_of_injective(sig_bytes@, sig);
        }
        if ok {
            assert(spec_handshake_signed(*h, public_key@));
        }
    }
    ok
}

/// Decode a contact's stored hex public key into verifying-key bytes;
/// rejected when it is not hex, not 32 bytes, or refused by the curve.
pub fn verifying_key_from_hex(hex_pk: &str) -> (r: Result<[u8; 32], RatchetError>)
    ensures
        match r {
            Ok(k) => crate::message::spec_key_usable(hex_pk@) && k@ == crate::json::hex_decoded(
                text_bytes(hex_pk@),
            ),
            Err(e) => (e is InvalidKeyLength || e is SignatureInvalid)
                && !crate::message::spec_key_usable(hex_pk@),
        },
{
    let hb = hex_pk.as_bytes();
    let kb = match crate::json::hex_decode(hb) {
        Some(b) => b,
        None => {
            return Err(RatchetError::InvalidKeyLength);
        },
    };
    proof {
        assert(kb@ =~= crate::json::hex_decoded(hb@));
    }
    if kb.len() != 32 {
        proof {
            assert(hb@.len() != 64);
        }
        return Err(RatchetError::InvalidKeyLength);
    }
    if !crate::crypto::validate_verifying_key(kb.as_slice()) {
        return Err(RatchetError::SignatureInvalid);
    }
    let mut k = [0u8; 32];
    let mut i: usize = 0;
    while i < 32
        invariant
            i <= 32,
            kb@.len() == 32,
            forall|m: int| 0 <= m < i ==> k@[m] == kb@[m],
        decreases 32 - i,
    {
        k[i] = kb[i];
        i = i + 1;
    }
    proof {
        assert(k@ =~= kb@);
    }
    Ok(k)
}

} // verus!
