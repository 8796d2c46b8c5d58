//! Identity manager: the local signing keypair tied to the hidden service.
//!
//! At startup the daemon looks up the user row keyed by the published
//! hidden-service address. When it is absent, a fresh signing keypair is
//! generated and stored hex-encoded under the display name "Me". Either way
//! the stored keys are decoded and validated — 32 bytes each, the public
//! half accepted by the curve — before any signing happens.

use vstd::prelude::*;
use crate::crypto::{
    ed25519_key_valid, ed25519_public_key, generate_signing_key, signing_public_key,
    validate_verifying_key,
};
use crate::db::{contains_user, Store, UserDb};
use crate::error::ClientError;
use crate::json::{
    hex_decode, hex_decoded, hex_of, is_hex_digit, lemma_hex_decoded_of, push_hex,
    lemma_hex_of_shape, is_hex_digit_lower,
};
use crate::text::{lemma_ascii_valid_utf8, string_from_utf8, text_bytes};
use vstd::pervasive::unreached;

verus! {

/// A hex string decodes to exactly 32 bytes of either-case hex.
pub open spec fn spec_hex_key(s: Seq<char>) -> bool {
    &&& text_bytes(s).len() == 64
    &&& forall|i: int| 0 <= i < text_bytes(s).len() ==> is_hex_digit(#[trigger] text_bytes(s)[i])
}

/// The 32 key bytes a hex string stands for.
pub open spec fn spec_key_of(s: Seq<char>) -> Seq<u8> {
    hex_decoded(text_bytes(s))
}

/// A stored keypair is usable: both halves are 32 hex-encoded bytes, the
/// public half is accepted by the curve, and it belongs to the private half.
pub open spec fn spec_keypair_valid(private_hex: Seq<char>, public_hex: Seq<char>) -> bool {
    &&& spec_hex_key(private_hex)
    &&& spec_hex_key(public_hex)
    &&& ed25519_key_valid(spec_key_of(public_hex))
}

/// Generate a signing keypair and hand both halves back hex-encoded; the
/// public half is derived from and valid for the private half.
pub fn generate_keypair() -> (r: (String, String))
    ensures
        spec_keypair_valid(r.0@, r.1@),
        spec_key_of(r.1@) == ed25519_public_key(spec_key_of(r.0@)),
        text_bytes(r.0@) == hex_of(spec_key_of(r.0@)),
        text_bytes(r.1@) == hex_of(spec_key_of(r.1@)),
{
    let secret = generate_signing_key();
    let public = signing_public_key(&secret);
    let private_hex = hex_string32(&secret);
    let public_hex = hex_string32(&public);
    proof {
        lemma_hex_decoded_of(secret@);
        lemma_hex_decoded_of(public@);
    }
    (private_hex, public_hex)
}

/// Hex-encode 32 key bytes into text.
fn hex_string32(key: &[u8; 32]) -> (r: String)
    ensures
        text_bytes(r@) == hex_of(key@),
{
    let mut h: Vec<u8> = Vec::new();
    push_hex(&mut h, key.as_slice());
    proof {
        lemma_hex_of_shape(key@);
        assert forall|i: int| 0 <= i < h@.len() implies #[trigger] h@[i] < 128 by {
            assert(is_hex_digit_lower(hex_of(key@)[i]));
        }
        lemma_ascii_valid_utf8(h@);
    }
    match string_from_utf8(h) {
        Some(s) => s,
        None => {
            proof {
                assert(false);
            }
            unreached()
        },
    }
}

/// Decode and validate a stored keypair: hex of either case, 32 bytes each,
/// public half accepted by the curve.
pub fn get_validated_keypair(private_key: &str, public_key: &str) -> (r: Result<
    ([u8; 32], [u8; 32]),
    ClientError,
>)
    ensures
        match r {
            Ok(p) => {
                &&& spec_keypair_valid(private_key@, public_key@)
                &&& p.0@ == spec_key_of(private_key@)
                &&& p.1@ == spec_key_of(public_key@)
            },
            Err(ClientError::HexInvalid) => !(text_bytes(private_key@).len() % 2 == 0 && text_bytes(
                public_key@,
            ).len() % 2 == 0 && (forall|i: int|
                0 <= i < text_bytes(private_key@).len() ==> is_hex_digit(
                    #[trigger] text_bytes(private_key@)[i],
                )) && (forall|i: int|
                0 <= i < text_bytes(public_key@).len() ==> is_hex_digit(
                    #[trigger] text_bytes(public_key@)[i],
                ))),
            Err(ClientError::InvalidKeyLength) => !(spec_hex_key(private_key@) && spec_hex_key(
                public_key@,
            )),
            Err(ClientError::KeyInvalid) => spec_hex_key(private_key@) && spec_hex_key(public_key@)
                && !ed25519_key_valid(spec_key_of(public_key@)),
        },
{
    let sk = match hex_decode(private_key.as_bytes()) {
        Some(b) => b,
        None => {
            return Err(ClientError::HexInvalid);
        },
    };
    let pk = match hex_decode(public_key.as_bytes()) {
        Some(b) => b,
        None => {
            return Err(ClientError::HexInvalid);
        },
    };
    proof {
        assert(sk@ =~= spec_key_of(private_key@));
        assert(pk@ =~= spec_key_of(public_key@));
    }
    if sk.len() != 32 || pk.len() != 32 {
        return Err(ClientError::InvalidKeyLength);
    }
    if !validate_verifying_key(pk.as_slice()) {
        return Err(ClientError::KeyInvalid);
    }
    let mut skr = [0u8; 32];
    let mut pkr = [0u8; 32];
    let mut i: usize = 0;
    while i < 32
        invariant
            i <= 32,
            sk@.len() == 32,
            pk@.len() == 32,
            forall|m: int| 0 <= m < i ==> skr@[m] == sk@[m] && pkr@[m] == pk@[m],
        decreases 32 - i,
    {
        skr[i] = sk[i];
        pkr[i] = pk[i];
        i = i + 1;
    }
    proof {
        assert(skr@ =~= sk@);
        assert(pkr@ =~= pk@);
    }
    Ok((skr, pkr))
}

/// Load the identity for the published address, creating it on first
/// launch: when no user row carries the address, a fresh keypair is stored
/// under the display name "Me"; the stored keys are then validated and
/// returned as (signing, verifying) bytes.
pub fn ensure_identity(store: &mut Store, onion_id: &str) -> (r: Result<
    ([u8; 32], [u8; 32]),
    ClientError,
>)
    requires
        old(store).wf(),
    ensures
        final(store).wf(),
        final(store).contacts@ == old(store).contacts@,
        final(store).messages@ == old(store).messages@,
        final(store).config@ == old(store).config@,
        final(store).next_message_id == old(store).next_message_id,
        contains_user(old(store).users@, onion_id@) ==> final(store).users@ == old(store).users@,
        !contains_user(old(store).users@, onion_id@) ==> {
            &&& final(store).users@.len() == old(store).users@.len() + 1
            &&& final(store).users@.last().onion_id@ == onion_id@
            &&& final(store).users@.last().nickname@ == "Me"@
            &&& r is Ok
        },
        match r {
            Ok(p) => exists|i: int|
                0 <= i < final(store).users@.len() && (#[trigger] final(store).users@[i]).onion_id@
                    == onion_id@ && spec_keypair_valid(
                    final(store).users@[i].private_key@,
                    final(store).users@[i].public_key@,
                ) && p.0@ == spec_key_of(final(store).users@[i].private_key@) && p.1@
                    == spec_key_of(final(store).users@[i].public_key@),
            Err(e) => {
                &&& contains_user(old(store).users@, onion_id@)
                &&& final(store).users@ == old(store).users@
                &&& forall|i: int|
                    0 <= i < old(store).users@.len() && (#[trigger] old(
                        store,
                    ).users@[i]).onion_id@ == onion_id@ ==> !spec_keypair_valid(
                        old(store).users@[i].private_key@,
                        old(store).users@[i].public_key@,
                    )
            },
        },
{
    let existing = store.retrieve_user(onion_id);
    match existing {
        Ok(user) => {
            match get_validated_keypair(user.private_key.as_str(), user.public_key.as_str()) {
                Ok(keys) => {
                    proof {
                        let i = choose|i: int|
                            0 <= i < store.users@.len() && #[trigger] store.users@[i] == user;
                        assert(store.users@[i].onion_id@ == onion_id@);
                    }
                    Ok(keys)
                },
                Err(e) => {
                    proof {
                        let i = choose|i: int|
                            0 <= i < store.users@.len() && #[trigger] store.users@[i] == user;
                        assert forall|k: int|
                            0 <= k < store.users@.len() && (#[trigger] store.users@[k]).onion_id@
                                == onion_id@ implies !spec_keypair_valid(
                            store.users@[k].private_key@,
                            store.users@[k].public_key@,
                        ) by {
                            if k != i {
                                assert(store.users@[k].onion_id@ != store.users@[i].onion_id@);
                            }
                        }
                    }
                    Err(e)
                },
            }
        },
        Err(_) => {
            let (private_hex, public_hex) = generate_keypair();
            let keys = match get_validated_keypair(private_hex.as_str(), public_hex.as_str()) {
                Ok(k) => k,
                Err(_) => {
                    proof {
                        assert(false);
                    }
                    return unreached();
                },
            };
            let row = UserDb {
                onion_id: String::from_str(onion_id),
                nickname: String::from_str("Me"),
                private_key: private_hex,
                public_key: public_hex,
            };
            match store.insert_user(row) {
                Ok(_) => {},
                Err(_) => {
                    proof {
                        assert(false);
                    }
                    return unreached();
                },
            }
            proof {
                assert(store.users@.last() == store.users@[store.users@.len() - 1]);
            }
            Ok(keys)
        },
    }
}

} // verus!
