//! Small verified utilities on text values.
//!
//! All wire formats of the daemon are byte sequences, while rows and payloads
//! carry owned text. The spec-level bridge between the two is UTF-8 encoding;
//! these helpers compare and convert along that bridge.

use vstd::prelude::*;
use vstd::string::StrSliceExecFns;
use vstd::utf8::{encode_utf8, encode_utf8_decode_utf8, valid_utf8};

verus! {

/// The UTF-8 bytes of a text value.
pub open spec fn text_bytes(s: Seq<char>) -> Seq<u8> {
    encode_utf8(s)
}

/// Compare two text values; equal bytes mean equal text because UTF-8
/// encoding is injective.
pub fn str_eq(a: &str, b: &str) -> (r: bool)
    ensures
        r == (a@ == b@),
{
    let ab = a.as_bytes();
    let bb = b.as_bytes();
    proof {
        encode_utf8_decode_utf8(a@);
        encode_utf8_decode_utf8(b@);
    }
    if ab.len() != bb.len() {
        return false;
    }
    let mut i: usize = 0;
    while i < ab.len()
        invariant
            ab@ == encode_utf8(a@),
            bb@ == encode_utf8(b@),
            ab@.len() == bb@.len(),
            i <= ab@.len(),
            decode_utf8_round_trips(a@),
            decode_utf8_round_trips(b@),
            forall|m: int| 0 <= m < i ==> ab@[m] == bb@[m],
        decreases ab@.len() - i,
    {
        if ab[i] != bb[i] {
            return false;
        }
        i = i + 1;
    }
    proof {
        assert(ab@ =~= bb@);
    }
    true
}

/// Both round-trip facts a comparison needs, packaged for a loop invariant.
pub open spec fn decode_utf8_round_trips(s: Seq<char>) -> bool {
    vstd::utf8::decode_utf8(encode_utf8(s)) == s
}

/// Copy the UTF-8 bytes of a text value into an owned vector.
pub fn str_to_bytes(s: &str) -> (r: Vec<u8>)
    ensures
        r@ == text_bytes(s@),
{
    s.as_bytes_vec()
}

/// A sequence of bytes below 128 is valid UTF-8: each byte is a width-one
/// scalar encoding.
pub proof fn lemma_ascii_valid_utf8(b: Seq<u8>)
    requires
        forall|i: int| 0 <= i < b.len() ==> #[trigger] b[i] < 128,
    ensures
        valid_utf8(b),
    decreases b.len(),
{
    if b.len() > 0 {
        assert(vstd::utf8::is_leading_byte_width_1(b[0]));
        assert(vstd::utf8::length_of_first_scalar(b) == 1);
        assert(vstd::utf8::decode_first_codepoint(b) == vstd::utf8::codepoint_width_1(b[0]));
        let rest = vstd::utf8::pop_first_scalar(b);
        assert(rest =~= b.drop_first());
        lemma_ascii_valid_utf8(rest);
    }
}

/// Relies on `String::from_utf8`: succeeds exactly on valid UTF-8 input and
/// returns the text whose encoding is that input.
#[verifier::external_body]
pub fn string_from_utf8(bytes: Vec<u8>) -> (r: Option<String>)
    ensures
        match r {
            Some(s) => text_bytes(s@) == bytes@,
            None => !valid_utf8(bytes@),
        },
{
    String::from_utf8(bytes).ok()
}

} // verus!
