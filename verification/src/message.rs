//! Signed chat message payloads and their canonical wire form.
//!
//! A peer-to-peer message travels as one UTF-8 JSON object
//! `{"payload":{"onion_id":...,"text":...,"timestamp":...},"signature":...}`
//! in canonical form: keys in this order, strings minimally escaped, the
//! timestamp in plain decimal, the signature as 128 lowercase hex digits.
//! The signature is produced over the canonical bytes of the inner payload
//! object alone. The parser accepts exactly the canonical encodings: a byte
//! sequence parses successfully if and only if it is the encoding of some
//! payload and signature.

use vstd::prelude::*;
use crate::crypto::{
    ed25519_key_valid, ed25519_public_key, ed25519_signature, ed25519_verifies, sign,
    verify_signature,
};
use crate::error::PayloadError;
use crate::json::{
    dec, dec_at, escape, hex_decoded, hex_decode, hex_decode_lower, hex_of, is_hex_digit,
    json_string_at, lemma_dec_at_unique, lemma_dec_shape, lemma_escape_plain, lemma_escape_unique,
    lemma_hex_of_injective, lemma_hex_of_shape, match_lit, parse_dec_u64, parse_json_string,
    push_all, push_dec_u64, push_hex, push_json_string, spec_json_string, DEC_LIMIT, QUOTE,
};
use crate::text::{string_from_utf8, text_bytes};

verus! {

/// Payload of a chat message, as signed and transmitted.
pub struct MessagePayload {
    /// Hidden-service address of the sender.
    pub onion_id: String,
    /// Text content of the message.
    pub text: String,
    /// Seconds since the epoch at which the sender composed the message.
    pub timestamp: i64,
}

impl MessagePayload {
    /// A payload the canonical form can carry: the timestamp is
    /// non-negative and fits the canonical decimal form.
    pub open spec fn valid(self) -> bool {
        0 <= self.timestamp < DEC_LIMIT
    }

    /// An owned copy of the payload.
    pub fn duplicate(&self) -> (r: MessagePayload)
        ensures
            r == *self,
    {
        MessagePayload {
            onion_id: self.onion_id.clone(),
            text: self.text.clone(),
            timestamp: self.timestamp,
        }
    }
}

// --- The canonical byte form ---

/// `{"onion_id":`
pub open spec fn lit_onion_key() -> Seq<u8> {
    seq![123u8, 34, 111, 110, 105, 111, 110, 95, 105, 100, 34, 58]
}

/// `{"payload":`
pub open spec fn lit_payload_key() -> Seq<u8> {
    seq![123u8, 34, 112, 97, 121, 108, 111, 97, 100, 34, 58]
}

/// `,"text":`
pub open spec fn lit_text_key() -> Seq<u8> {
    seq![44u8, 34, 116, 101, 120, 116, 34, 58]
}

/// `,"timestamp":`
pub open spec fn lit_timestamp_key() -> Seq<u8> {
    seq![44u8, 34, 116, 105, 109, 101, 115, 116, 97, 109, 112, 34, 58]
}

/// `,"signature":`
pub open spec fn lit_signature_key() -> Seq<u8> {
    seq![44u8, 34, 115, 105, 103, 110, 97, 116, 117, 114, 101, 34, 58]
}

/// `}`
pub open spec fn lit_close() -> Seq<u8> {
    seq![125u8]
}

/// Canonical bytes of the inner payload object; these are what gets signed.
pub open spec fn spec_payload_json(onion: Seq<u8>, text: Seq<u8>, ts: nat) -> Seq<u8> {
    lit_onion_key() + spec_json_string(onion) + lit_text_key() + spec_json_string(text)
        + lit_timestamp_key() + dec(ts) + lit_close()
}

/// Canonical bytes of the signed envelope around a payload.
pub open spec fn spec_signed_envelope(onion: Seq<u8>, text: Seq<u8>, ts: nat, sig: Seq<u8>) -> Seq<
    u8,
> {
    lit_payload_key() + spec_payload_json(onion, text, ts) + lit_signature_key()
        + spec_json_string(hex_of(sig)) + lit_close()
}

/// The data is the canonical envelope of this payload and signature.
pub open spec fn spec_envelope_matches(
    data: Seq<u8>,
    o: Seq<char>,
    t: Seq<char>,
    ts: nat,
    g: Seq<u8>,
) -> bool {
    &&& ts < DEC_LIMIT
    &&& g.len() == 64
    &&& data == spec_signed_envelope(text_bytes(o), text_bytes(t), ts, g)
}

// Exec forms of the literals.

fn k_env_open() -> (r: Vec<u8>)
    ensures
        r@ == lit_payload_key() + lit_onion_key() + seq![QUOTE],
{
    let r: Vec<u8> = vec![
        123u8, 34, 112, 97, 121, 108, 111, 97, 100, 34, 58, 123, 34, 111, 110, 105, 111, 110, 95,
        105, 100, 34, 58, 34,
    ];
    proof {
        assert(r@ =~= lit_payload_key() + lit_onion_key() + seq![QUOTE]);
    }
    r
}

fn k_onion() -> (r: Vec<u8>)
    ensures
        r@ == lit_onion_key(),
{
    let r: Vec<u8> = vec![123u8, 34, 111, 110, 105, 111, 110, 95, 105, 100, 34, 58];
    proof {
        assert(r@ =~= lit_onion_key());
    }
    r
}

fn k_text() -> (r: Vec<u8>)
    ensures
        r@ == lit_text_key(),
{
    let r: Vec<u8> = vec![44u8, 34, 116, 101, 120, 116, 34, 58];
    proof {
        assert(r@ =~= lit_text_key());
    }
    r
}

fn k_text_q() -> (r: Vec<u8>)
    ensures
        r@ == lit_text_key() + seq![QUOTE],
{
    let r: Vec<u8> = vec![44u8, 34, 116, 101, 120, 116, 34, 58, 34];
    proof {
        assert(r@ =~= lit_text_key() + seq![QUOTE]);
    }
    r
}

fn k_timestamp() -> (r: Vec<u8>)
    ensures
        r@ == lit_timestamp_key(),
{
    let r: Vec<u8> = vec![44u8, 34, 116, 105, 109, 101, 115, 116, 97, 109, 112, 34, 58];
    proof {
        assert(r@ =~= lit_timestamp_key());
    }
    r
}

fn k_signature_q() -> (r: Vec<u8>)
    ensures
        r@ == lit_close() + lit_signature_key() + seq![QUOTE],
{
    let r: Vec<u8> = vec![125u8, 44, 34, 115, 105, 103, 110, 97, 116, 117, 114, 101, 34, 58, 34];
    proof {
        assert(r@ =~= lit_close() + lit_signature_key() + seq![QUOTE]);
    }
    r
}

fn k_signature() -> (r: Vec<u8>)
    ensures
        r@ == lit_signature_key(),
{
    let r: Vec<u8> = vec![44u8, 34, 115, 105, 103, 110, 97, 116, 117, 114, 101, 34, 58];
    proof {
        assert(r@ =~= lit_signature_key());
    }
    r
}

fn k_close() -> (r: Vec<u8>)
    ensures
        r@ == lit_close(),
{
    let r: Vec<u8> = vec![125u8];
    proof {
        assert(r@ =~= lit_close());
    }
    r
}

// --- Encoding ---

/// Canonical bytes of the inner payload object of `p`.
pub fn encode_payload(p: &MessagePayload) -> (r: Vec<u8>)
    requires
        p.valid(),
    ensures
        r@ == spec_payload_json(text_bytes(p.onion_id@), text_bytes(p.text@), p.timestamp as nat),
{
    let mut out: Vec<u8> = Vec::new();
    let lit = k_onion();
    push_all(&mut out, lit.as_slice());
    push_json_string(&mut out, p.onion_id.as_str().as_bytes());
    let lit = k_text();
    push_all(&mut out, lit.as_slice());
    push_json_string(&mut out, p.text.as_str().as_bytes());
    let lit = k_timestamp();
    push_all(&mut out, lit.as_slice());
    push_dec_u64(&mut out, p.timestamp as u64);
    let lit = k_close();
    push_all(&mut out, lit.as_slice());
    proof {
        assert(out@ =~= spec_payload_json(
            text_bytes(p.onion_id@),
            text_bytes(p.text@),
            p.timestamp as nat,
        ));
    }
    out
}

/// Sign the canonical payload bytes of `p` with the sender's secret key.
/// The signature verifies under the sender's public key.
pub fn sign_payload(secret: &[u8; 32], p: &MessagePayload) -> (r: [u8; 64])
    requires
        p.valid(),
    ensures
        r@ == ed25519_signature(
            secret@,
            spec_payload_json(text_bytes(p.onion_id@), text_bytes(p.text@), p.timestamp as nat),
        ),
        ed25519_verifies(
            ed25519_public_key(secret@),
            spec_payload_json(text_bytes(p.onion_id@), text_bytes(p.text@), p.timestamp as nat),
            r@,
        ),
{
    let bytes = encode_payload(p);
    sign(secret, bytes.as_slice())
}

/// Canonical bytes of the signed envelope of `p` under `signature`.
pub fn encode_signed_message(p: &MessagePayload, signature: &[u8; 64]) -> (r: Vec<u8>)
    requires
        p.valid(),
    ensures
        r@ == spec_signed_envelope(
            text_bytes(p.onion_id@),
            text_bytes(p.text@),
            p.timestamp as nat,
            signature@,
        ),
        spec_envelope_matches(r@, p.onion_id@, p.text@, p.timestamp as nat, signature@),
{
    let mut out: Vec<u8> = Vec::new();
    let litp: Vec<u8> = vec![123u8, 34, 112, 97, 121, 108, 111, 97, 100, 34, 58];
    proof {
        assert(litp@ =~= lit_payload_key());
    }
    push_all(&mut out, litp.as_slice());
    let payload = encode_payload(p);
    push_all(&mut out, payload.as_slice());
    let lits = k_signature();
    push_all(&mut out, lits.as_slice());
    let mut h: Vec<u8> = Vec::new();
    push_hex(&mut h, signature.as_slice());
    push_json_string(&mut out, h.as_slice());
    let litc = k_close();
    push_all(&mut out, litc.as_slice());
    proof {
        assert(out@ =~= spec_signed_envelope(
            text_bytes(p.onion_id@),
            text_bytes(p.text@),
            p.timestamp as nat,
            signature@,
        ));
    }
    out
}

// --- Canonical positions inside an envelope ---

/// Index just after the onion-id string's closing quote.
pub open spec fn pos_o_end(o: Seq<u8>) -> int {
    24 + escape(o).len() as int + 1
}

/// Index of the text string's opening quote, plus one.
pub open spec fn pos_t_start(o: Seq<u8>) -> int {
    pos_o_end(o) + 9
}

/// Index just after the text string's closing quote.
pub open spec fn pos_t_end(o: Seq<u8>, t: Seq<u8>) -> int {
    pos_t_start(o) + escape(t).len() as int + 1
}

/// Index of the first timestamp digit.
pub open spec fn pos_n_start(o: Seq<u8>, t: Seq<u8>) -> int {
    pos_t_end(o, t) + 13
}

/// Index just after the last timestamp digit.
pub open spec fn pos_n_end(o: Seq<u8>, t: Seq<u8>, ts: nat) -> int {
    pos_n_start(o, t) + dec(ts).len() as int
}

/// Index of the first signature hex digit.
pub open spec fn pos_h_start(o: Seq<u8>, t: Seq<u8>, ts: nat) -> int {
    pos_n_end(o, t, ts) + 15
}

/// Index just after the signature string's closing quote.
pub open spec fn pos_h_end(o: Seq<u8>, t: Seq<u8>, ts: nat) -> int {
    pos_h_start(o, t, ts) + 129
}

/// Where every part of a canonical envelope stands.
#[verifier::rlimit(100)]
proof fn lemma_envelope_positions(data: Seq<u8>, o: Seq<u8>, t: Seq<u8>, ts: nat, g: Seq<u8>)
    requires
        data == spec_signed_envelope(o, t, ts, g),
        ts < DEC_LIMIT,
        g.len() == 64,
    ensures
        data.len() == pos_h_end(o, t, ts) + 1,
        data.subrange(0, 24) == lit_payload_key() + lit_onion_key() + seq![QUOTE],
        json_string_at(data, 24, o, pos_o_end(o)),
        data.subrange(pos_o_end(o), pos_t_start(o)) == lit_text_key() + seq![QUOTE],
        json_string_at(data, pos_t_start(o), t, pos_t_end(o, t)),
        data.subrange(pos_t_end(o, t), pos_n_start(o, t)) == lit_timestamp_key(),
        dec_at(data, pos_n_start(o, t), ts, pos_n_end(o, t, ts)),
        data.subrange(pos_n_end(o, t, ts), pos_h_start(o, t, ts)) == lit_close()
            + lit_signature_key() + seq![QUOTE],
        json_string_at(data, pos_h_start(o, t, ts), hex_of(g), pos_h_end(o, t, ts)),
        data.subrange(pos_h_end(o, t, ts), data.len() as int) == lit_close(),
{
    let h = hex_of(g);
    lemma_hex_of_shape(g);
    assert forall|i: int| 0 <= i < h.len() implies h[i] != QUOTE && h[i] != 92 by {
        assert(crate::json::is_hex_digit_lower(h[i]));
    }
    lemma_escape_plain(h);
    lemma_dec_shape(ts);
    let pj = spec_payload_json(o, t, ts);
    assert(pj =~= (lit_onion_key() + seq![QUOTE]) + (escape(o) + seq![QUOTE]) + (lit_text_key()
        + seq![QUOTE]) + (escape(t) + seq![QUOTE]) + lit_timestamp_key() + dec(ts) + lit_close());
    let flat = (lit_payload_key() + lit_onion_key() + seq![QUOTE]) + (escape(o) + seq![QUOTE]) + (
    lit_text_key() + seq![QUOTE]) + (escape(t) + seq![QUOTE]) + lit_timestamp_key() + dec(ts) + (
    lit_close() + lit_signature_key() + seq![QUOTE]) + (h + seq![QUOTE]) + lit_close();
    assert(data =~= flat);
    assert(data.subrange(0, 24) =~= lit_payload_key() + lit_onion_key() + seq![QUOTE]);
    assert(data.subrange(24, pos_o_end(o)) =~= escape(o) + seq![QUOTE]);
    assert(data.subrange(pos_o_end(o), pos_t_start(o)) =~= lit_text_key() + seq![QUOTE]);
    assert(data.subrange(pos_t_start(o), pos_t_end(o, t)) =~= escape(t) + seq![QUOTE]);
    assert(data.subrange(pos_t_end(o, t), pos_n_start(o, t)) =~= lit_timestamp_key());
    assert(data.subrange(pos_n_start(o, t), pos_n_end(o, t, ts)) =~= dec(ts));
    assert(data.subrange(pos_n_end(o, t, ts), pos_h_start(o, t, ts)) =~= lit_close()
        + lit_signature_key() + seq![QUOTE]);
    assert(data.subrange(pos_h_start(o, t, ts), pos_h_end(o, t, ts)) =~= h + seq![QUOTE]);
    assert(data.subrange(pos_h_end(o, t, ts), data.len() as int) =~= lit_close());
    assert(data[pos_n_end(o, t, ts)] == 125);
}

// --- Parsing ---

/// Read a canonical signed envelope; returns the payload and the 64
/// signature bytes. Succeeds exactly on the canonical encoding of some
/// payload and signature.
#[verifier::rlimit(100)]
pub fn parse_signed_message(data: &Vec<u8>) -> (r: Result<(MessagePayload, Vec<u8>), PayloadError>)
    ensures
        match r {
            Ok(p) => {
                &&& p.0.valid()
                &&& p.1@.len() == 64
                &&& spec_envelope_matches(data@, p.0.onion_id@, p.0.text@, p.0.timestamp as nat, p.1@)
            },
            Err(e) => {
                &&& e is EncodingInvalid
                &&& forall|o: Seq<char>, t: Seq<char>, ts: nat, g: Seq<u8>|
                    !spec_envelope_matches(data@, o, t, ts, g)
            },
        },
{
    let ka = k_env_open();
    let p0 = match match_lit(data, 0, ka.as_slice()) {
        Some(p) => p,
        None => {
            proof {
                assert forall|o: Seq<char>, t: Seq<char>, ts: nat, g: Seq<u8>|
                    !spec_envelope_matches(data@, o, t, ts, g) by {
                    if spec_envelope_matches(data@, o, t, ts, g) {
                        lemma_envelope_positions(data@, text_bytes(o), text_bytes(t), ts, g);
                    }
                }
            }
            return Err(PayloadError::EncodingInvalid);
        },
    };
    // p0 == 24
    let s1 = parse_json_string(data, p0);
    let (ob, p1) = match s1 {
        Some(p) => p,
        None => {
            proof {
                assert forall|o: Seq<char>, t: Seq<char>, ts: nat, g: Seq<u8>|
                    !spec_envelope_matches(data@, o, t, ts, g) by {
                    if spec_envelope_matches(data@, o, t, ts, g) {
                        lemma_envelope_positions(data@, text_bytes(o), text_bytes(t), ts, g);
                    }
                }
            }
            return Err(PayloadError::EncodingInvalid);
        },
    };
    proof {
        assert forall|o: Seq<char>, t: Seq<char>, ts: nat, g: Seq<u8>|
            spec_envelope_matches(data@, o, t, ts, g) implies ob@ == text_bytes(o) && p1 as int
            == pos_o_end(text_bytes(o)) by {
            let so = text_bytes(o);
            lemma_envelope_positions(data@, so, text_bytes(t), ts, g);
            lemma_two_strings_align(data@, 24, ob@, p1 as int, so, pos_o_end(so));
        }
    }
    let kb = k_text_q();
    let p2 = match match_lit(data, p1, kb.as_slice()) {
        Some(p) => p,
        None => {
            proof {
                assert forall|o: Seq<char>, t: Seq<char>, ts: nat, g: Seq<u8>|
                    !spec_envelope_matches(data@, o, t, ts, g) by {
                    if spec_envelope_matches(data@, o, t, ts, g) {
                        let so = text_bytes(o);
                        lemma_envelope_positions(data@, so, text_bytes(t), ts, g);
                    }
                }
            }
            return Err(PayloadError::EncodingInvalid);
        },
    };
    let s2 = parse_json_string(data, p2);
    let (tb, p3) = match s2 {
        Some(p) => p,
        None => {
            proof {
                assert forall|o: Seq<char>, t: Seq<char>, ts: nat, g: Seq<u8>|
                    !spec_envelope_matches(data@, o, t, ts, g) by {
                    if spec_envelope_matches(data@, o, t, ts, g) {
                        let so = text_bytes(o);
                        lemma_envelope_positions(data@, so, text_bytes(t), ts, g);
                    }
                }
            }
            return Err(PayloadError::EncodingInvalid);
        },
    };
    proof {
        assert forall|o: Seq<char>, t: Seq<char>, ts: nat, g: Seq<u8>|
            spec_envelope_matches(data@, o, t, ts, g) implies tb@ == text_bytes(t) && p3 as int
            == pos_t_end(text_bytes(o), text_bytes(t)) by {
            let so = text_bytes(o);
            let st = text_bytes(t);
            lemma_envelope_positions(data@, so, st, ts, g);
            lemma_two_strings_align(data@, p2 as int, tb@, p3 as int, st, pos_t_end(so, st));
        }
    }
    let kc = k_timestamp();
    let p4 = match match_lit(data, p3, kc.as_slice()) {
        Some(p) => p,
        None => {
            proof {
                assert forall|o: Seq<char>, t: Seq<char>, ts: nat, g: Seq<u8>|
                    !spec_envelope_matches(data@, o, t, ts, g) by {
                    if spec_envelope_matches(data@, o, t, ts, g) {
                        lemma_envelope_positions(data@, text_bytes(o), text_bytes(t), ts, g);
                    }
                }
            }
            return Err(PayloadError::EncodingInvalid);
        },
    };
    let num = parse_dec_u64(data, p4);
    let (ts_v, p5) = match num {
        Some(p) => p,
        None => {
            proof {
                assert forall|o: Seq<char>, t: Seq<char>, ts: nat, g: Seq<u8>|
                    !spec_envelope_matches(data@, o, t, ts, g) by {
                    if spec_envelope_matches(data@, o, t, ts, g) {
                        lemma_envelope_positions(data@, text_bytes(o), text_bytes(t), ts, g);
                    }
                }
            }
            return Err(PayloadError::EncodingInvalid);
        },
    };
    proof {
        assert forall|o: Seq<char>, t: Seq<char>, ts: nat, g: Seq<u8>|
            spec_envelope_matches(data@, o, t, ts, g) implies ts_v as nat == ts && p5 as int
            == pos_n_end(text_bytes(o), text_bytes(t), ts) by {
            let so = text_bytes(o);
            let st = text_bytes(t);
            lemma_envelope_positions(data@, so, st, ts, g);
            lemma_dec_at_unique(
                data@,
                p4 as int,
                ts_v as nat,
                p5 as int,
                ts,
                pos_n_end(so, st, ts),
            );
        }
    }
    let kd = k_signature_q();
    let p6 = match match_lit(data, p5, kd.as_slice()) {
        Some(p) => p,
        None => {
            proof {
                assert forall|o: Seq<char>, t: Seq<char>, ts: nat, g: Seq<u8>|
                    !spec_envelope_matches(data@, o, t, ts, g) by {
                    if spec_envelope_matches(data@, o, t, ts, g) {
                        lemma_envelope_positions(data@, text_bytes(o), text_bytes(t), ts, g);
                    }
                }
            }
            return Err(PayloadError::EncodingInvalid);
        },
    };
    let s3 = parse_json_string(data, p6);
    let (hb, p7) = match s3 {
        Some(p) => p,
        None => {
            proof {
                assert forall|o: Seq<char>, t: Seq<char>, ts: nat, g: Seq<u8>|
                    !spec_envelope_matches(data@, o, t, ts, g) by {
                    if spec_envelope_matches(data@, o, t, ts, g) {
                        lemma_envelope_positions(data@, text_bytes(o), text_bytes(t), ts, g);
                    }
                }
            }
            return Err(PayloadError::EncodingInvalid);
        },
    };
    proof {
        assert forall|o: Seq<char>, t: Seq<char>, ts: nat, g: Seq<u8>|
            spec_envelope_matches(data@, o, t, ts, g) implies hb@ == hex_of(g) && p7 as int
            == pos_h_end(text_bytes(o), text_bytes(t), ts) by {
            let so = text_bytes(o);
            let st = text_bytes(t);
            lemma_envelope_positions(data@, so, st, ts, g);
            lemma_two_strings_align(
                data@,
                p6 as int,
                hb@,
                p7 as int,
                hex_of(g),
                pos_h_end(so, st, ts),
            );
        }
    }
    let sig = match hex_decode_lower(hb.as_slice()) {
        Some(s) => s,
        None => {
            proof {
                assert forall|o: Seq<char>, t: Seq<char>, ts: nat, g: Seq<u8>|
                    !spec_envelope_matches(data@, o, t, ts, g) by {
                    if spec_envelope_matches(data@, o, t, ts, g) {
                        assert(hb@ == hex_of(g));
                    }
                }
            }
            return Err(PayloadError::EncodingInvalid);
        },
    };
    if sig.len() != 64 {
        proof {
            assert forall|o: Seq<char>, t: Seq<char>, ts: nat, g: Seq<u8>|
                !spec_envelope_matches(data@, o, t, ts, g) by {
                if spec_envelope_matches(data@, o, t, ts, g) {
                    lemma_hex_of_injective(sig@, g);
                }
            }
        }
        return Err(PayloadError::EncodingInvalid);
    }
    let ke = k_close();
    let p8 = match match_lit(data, p7, ke.as_slice()) {
        Some(p) => p,
        None => {
            proof {
                assert forall|o: Seq<char>, t: Seq<char>, ts: nat, g: Seq<u8>|
                    !spec_envelope_matches(data@, o, t, ts, g) by {
                    if spec_envelope_matches(data@, o, t, ts, g) {
                        lemma_envelope_positions(data@, text_bytes(o), text_bytes(t), ts, g);
                    }
                }
            }
            return Err(PayloadError::EncodingInvalid);
        },
    };
    if p8 != data.len() {
        proof {
            assert forall|o: Seq<char>, t: Seq<char>, ts: nat, g: Seq<u8>|
                !spec_envelope_matches(data@, o, t, ts, g) by {
                if spec_envelope_matches(data@, o, t, ts, g) {
                    lemma_envelope_positions(data@, text_bytes(o), text_bytes(t), ts, g);
                }
            }
        }
        return Err(PayloadError::EncodingInvalid);
    }
    let onion = match string_from_utf8(ob) {
        Some(s) => s,
        None => {
            proof {
                assert forall|o: Seq<char>, t: Seq<char>, ts: nat, g: Seq<u8>|
                    !spec_envelope_matches(data@, o, t, ts, g) by {
                    if spec_envelope_matches(data@, o, t, ts, g) {
                        vstd::utf8::encode_utf8_valid_utf8(o);
                    }
                }
            }
            return Err(PayloadError::EncodingInvalid);
        },
    };
    let text = match string_from_utf8(tb) {
        Some(s) => s,
        None => {
            proof {
                assert forall|o: Seq<char>, t: Seq<char>, ts: nat, g: Seq<u8>|
                    !spec_envelope_matches(data@, o, t, ts, g) by {
                    if spec_envelope_matches(data@, o, t, ts, g) {
                        vstd::utf8::encode_utf8_valid_utf8(t);
                    }
                }
            }
            return Err(PayloadError::EncodingInvalid);
        },
    };
    let payload = MessagePayload { onion_id: onion, text, timestamp: ts_v as i64 };
    proof {
        let so = text_bytes(payload.onion_id@);
        let st = text_bytes(payload.text@);
        let flat = (lit_payload_key() + lit_onion_key() + seq![QUOTE]) + (escape(so) + seq![QUOTE])
            + (lit_text_key() + seq![QUOTE]) + (escape(st) + seq![QUOTE]) + lit_timestamp_key()
            + dec(ts_v as nat) + (lit_close() + lit_signature_key() + seq![QUOTE]) + (escape(hb@)
            + seq![QUOTE]) + lit_close();
        assert(data@ =~= flat);
        let pj = spec_payload_json(so, st, ts_v as nat);
        assert(pj =~= (lit_onion_key() + seq![QUOTE]) + (escape(so) + seq![QUOTE]) + (
        lit_text_key() + seq![QUOTE]) + (escape(st) + seq![QUOTE]) + lit_timestamp_key() + dec(
            ts_v as nat,
        ) + lit_close());
        lemma_hex_of_shape(sig@);
        assert forall|i: int| 0 <= i < hb@.len() implies hb@[i] != QUOTE && hb@[i] != 92 by {
            assert(crate::json::is_hex_digit_lower(hex_of(sig@)[i]));
        }
        lemma_escape_plain(hb@);
        assert(data@ =~= spec_signed_envelope(so, st, ts_v as nat, sig@));
    }
    Ok((payload, sig))
}

/// Two canonical strings starting at the same index of the same data are the
/// same string with the same end.
pub proof fn lemma_two_strings_align(data: Seq<u8>, start: int, s1: Seq<u8>, j1: int, s2: Seq<u8>, j2: int)
    requires
        0 <= start,
        json_string_at(data, start, s1, j1),
        json_string_at(data, start, s2, j2),
    ensures
        s1 == s2,
        j1 == j2,
{
    let t1 = data.subrange(j1, data.len() as int);
    let t2 = data.subrange(j2, data.len() as int);
    assert(data.subrange(start, data.len() as int) =~= data.subrange(start, j1) + t1);
    assert(data.subrange(start, data.len() as int) =~= data.subrange(start, j2) + t2);
    assert(escape(s1) + seq![QUOTE] + t1 =~= data.subrange(start, data.len() as int));
    assert(escape(s2) + seq![QUOTE] + t2 =~= data.subrange(start, data.len() as int));
    lemma_escape_unique(s1, t1, s2, t2);
}

/// The canonical envelope form is injective: one byte sequence determines
/// its payload fields and signature.
pub proof fn lemma_envelope_fields_unique(
    data: Seq<u8>,
    o1: Seq<char>,
    t1: Seq<char>,
    ts1: nat,
    g1: Seq<u8>,
    o2: Seq<char>,
    t2: Seq<char>,
    ts2: nat,
    g2: Seq<u8>,
)
    requires
        spec_envelope_matches(data, o1, t1, ts1, g1),
        spec_envelope_matches(data, o2, t2, ts2, g2),
    ensures
        o1 == o2,
        t1 == t2,
        ts1 == ts2,
        g1 == g2,
{
    let so1 = text_bytes(o1);
    let st1 = text_bytes(t1);
    let so2 = text_bytes(o2);
    let st2 = text_bytes(t2);
    lemma_envelope_positions(data, so1, st1, ts1, g1);
    lemma_envelope_positions(data, so2, st2, ts2, g2);
    lemma_two_strings_align(data, 24, so1, pos_o_end(so1), so2, pos_o_end(so2));
    vstd::utf8::encode_utf8_decode_utf8(o1);
    vstd::utf8::encode_utf8_decode_utf8(o2);
    lemma_two_strings_align(
        data,
        pos_t_start(so1),
        st1,
        pos_t_end(so1, st1),
        st2,
        pos_t_end(so2, st2),
    );
    vstd::utf8::encode_utf8_decode_utf8(t1);
    vstd::utf8::encode_utf8_decode_utf8(t2);
    lemma_dec_at_unique(
        data,
        pos_n_start(so1, st1),
        ts1,
        pos_n_end(so1, st1, ts1),
        ts2,
        pos_n_end(so2, st2, ts2),
    );
    lemma_two_strings_align(
        data,
        pos_h_start(so1, st1, ts1),
        hex_of(g1),
        pos_h_end(so1, st1, ts1),
        hex_of(g2),
        pos_h_end(so2, st2, ts2),
    );
    lemma_hex_of_injective(g1, g2);
}

// --- Verification of an inbound payload ---

/// Hex characters of a stored public key, as bytes.
pub open spec fn key_hex_bytes(key_hex: Seq<char>) -> Seq<u8> {
    text_bytes(key_hex)
}

/// A stored key decodes to a usable verifying key: hex of either case, 32
/// bytes long, accepted by the curve.
pub open spec fn spec_key_usable(key_hex: Seq<char>) -> bool {
    let h = key_hex_bytes(key_hex);
    &&& h.len() == 64
    &&& forall|i: int| 0 <= i < h.len() ==> is_hex_digit(#[trigger] h[i])
    &&& ed25519_key_valid(hex_decoded(h))
}

/// Verify a detached signature over the canonical payload bytes of `p`,
/// using a contact's stored hex-encoded public key.
pub fn verify_signed_payload(key_hex: &str, p: &MessagePayload, signature: &[u8]) -> (r: Result<
    (),
    PayloadError,
>)
    requires
        p.valid(),
        signature@.len() == 64,
    ensures
        ({
            let msg = spec_payload_json(
                text_bytes(p.onion_id@),
                text_bytes(p.text@),
                p.timestamp as nat,
            );
            match r {
                Ok(()) => spec_key_usable(key_hex@) && ed25519_verifies(
                    hex_decoded(key_hex_bytes(key_hex@)),
                    msg,
                    signature@,
                ),
                Err(PayloadError::KeyMalformed) => !spec_key_usable(key_hex@),
                Err(PayloadError::SignatureInvalid) => spec_key_usable(key_hex@)
                    && !ed25519_verifies(hex_decoded(key_hex_bytes(key_hex@)), msg, signature@),
                Err(PayloadError::EncodingInvalid) => false,
            }
        }),
{
    let hb = key_hex.as_bytes();
    let kb = match hex_decode(hb) {
        Some(b) => b,
        None => {
            return Err(PayloadError::KeyMalformed);
        },
    };
    proof {
        assert(kb@ =~= hex_decoded(hb@));
    }
    if kb.len() != 32 {
        proof {
            assert(hb@.len() != 64);
        }
        return Err(PayloadError::KeyMalformed);
    }
    let msg = encode_payload(p);
    match verify_signature(kb.as_slice(), msg.as_slice(), signature) {
        Some(true) => Ok(()),
        Some(false) => Err(PayloadError::SignatureInvalid),
        None => Err(PayloadError::KeyMalformed),
    }
}

} // verus!
