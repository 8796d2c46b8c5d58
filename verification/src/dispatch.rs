//! Peer message handling: the inbound dispatcher's core, the outbound
//! sender's frame construction, and the delivery follow-ups shared by the
//! send path and the retry loop.
//!
//! The surrounding process accepts rendezvous requests, reads and writes the
//! streams, and sleeps between retry ticks; every decision about what a
//! frame means, what is stored and what is broadcast stands here.

use vstd::prelude::*;
use crate::crypto::{ed25519_signature, ed25519_verifies};
use crate::db::{contains_contact, MessageDb, Store, UpdateMessageDb};
use crate::error::PayloadError;
use crate::frame::{spec_frame, write_frame};
use crate::ipc::{build_reload_event, spec_reload_event};
use crate::json::{hex_decoded, DEC_LIMIT};
use crate::message::{
    encode_signed_message, key_hex_bytes, parse_signed_message, sign_payload, spec_envelope_matches,
    spec_key_usable, spec_payload_json, verify_signed_payload, MessagePayload,
};
use crate::text::{str_eq, text_bytes};
use crate::ui_focus::{is_focussed, FocusState};

verus! {

/// What the dispatcher decided about one inbound frame.
pub struct InboundOutcome {
    /// Row id of the stored message, when one was stored.
    pub stored: Option<i64>,
    /// Broadcast line to push to every subscriber, when there was activity.
    pub event: Option<Vec<u8>>,
    /// Whether a desktop notification should fire.
    pub notify: bool,
}

/// Whether an inbound message should raise a desktop notification: only
/// when notifications are switched on and the UI is not focussed.
pub fn should_notify(store: &Store, focus: &FocusState) -> (r: bool)
    ensures
        r == (Store::spec_config_lookup(store.config@, "enable_notifications"@) == Some("true"@)
            && !focus.focussed),
{
    let enabled = match store.config_get("enable_notifications") {
        Some(v) => str_eq(v.as_str(), "true"),
        None => false,
    };
    enabled && !is_focussed(focus)
}

/// The signature of an envelope verifies under this contact key.
pub open spec fn spec_inbound_verified(
    key_hex: Seq<char>,
    o: Seq<char>,
    t: Seq<char>,
    ts: nat,
    g: Seq<u8>,
) -> bool {
    spec_key_usable(key_hex) && ed25519_verifies(
        hex_decoded(key_hex_bytes(key_hex)),
        spec_payload_json(text_bytes(o), text_bytes(t), ts),
        g,
    )
}

/// Handle one inbound frame body: parse the signed envelope, look the
/// sender up among the contacts, verify the signature with the stored key,
/// persist the message, and hand back the broadcast event. A frame from an
/// unknown sender is dropped silently — nothing is stored, nothing is
/// broadcast. A message row always exists before the broadcast event is
/// handed out.
pub fn handle_inbound_frame(store: &mut Store, focus: &FocusState, body: &Vec<u8>) -> (r: Result<
    InboundOutcome,
    PayloadError,
>)
    requires
        old(store).wf(),
    ensures
        final(store).wf(),
        final(store).users@ == old(store).users@,
        final(store).contacts@ == old(store).contacts@,
        final(store).config@ == old(store).config@,
        match r {
            Err(e) => {
                &&& e is EncodingInvalid
                &&& forall|o: Seq<char>, t: Seq<char>, ts: nat, g: Seq<u8>|
                    !spec_envelope_matches(body@, o, t, ts, g)
                &&& *final(store) == *old(store)
            },
            Ok(out) => {
                // the message row exists before the broadcast event is sent
                &&& (out.event is Some ==> (out.stored matches Some(id) && exists|k: int|
                    0 <= k < final(store).messages@.len() && (#[trigger] final(store).messages@[k]).id == id))
                // with the id space exhausted nothing is stored or announced
                &&& old(store).next_message_id == i64::MAX ==> *final(store) == *old(store)
                    && out.stored is None && out.event is None && !out.notify
                // an unknown sender is dropped silently
                &&& forall|o: Seq<char>, t: Seq<char>, ts: nat, g: Seq<u8>|
                    #[trigger] spec_envelope_matches(body@, o, t, ts, g) && !contains_contact(
                        old(store).contacts@,
                        o,
                    ) ==> *final(store) == *old(store) && out.stored is None && out.event is None
                        && !out.notify
                // a frame from a known contact is persisted and announced
                &&& old(store).next_message_id < i64::MAX ==> forall|
                    o: Seq<char>,
                    t: Seq<char>,
                    ts: nat,
                    g: Seq<u8>,
                |
                    spec_envelope_matches(body@, o, t, ts, g) ==> #[trigger] spec_inbound_handled(
                        *old(store),
                        *final(store),
                        focus.focussed,
                        out,
                        o,
                        t,
                        ts,
                        g,
                    )
            },
        },
{
    let (payload, sig) = match parse_signed_message(body) {
        Ok(p) => p,
        Err(e) => {
            return Err(e);
        },
    };
    let contact = match store.retrieve_contact(payload.onion_id.as_str()) {
        Ok(c) => c,
        Err(_) => {
            // unknown sender: drop silently
            proof {
                assert forall|o: Seq<char>, t: Seq<char>, ts: nat, g: Seq<u8>|
                    #[trigger] spec_envelope_matches(body@, o, t, ts, g) implies o
                    == payload.onion_id@ by {
                    crate::message::lemma_envelope_fields_unique(
                        body@,
                        payload.onion_id@,
                        payload.text@,
                        payload.timestamp as nat,
                        sig@,
                        o,
                        t,
                        ts,
                        g,
                    );
                }
            }
            return Ok(InboundOutcome { stored: None, event: None, notify: false });
        },
    };
    let verified = verify_signed_payload(
        contact.public_key.as_str(),
        &payload,
        sig.as_slice(),
    ).is_ok();
    let row = MessageDb {
        id: 0,
        contact_onion_id: payload.onion_id.clone(),
        body: payload.text.clone(),
        timestamp: payload.timestamp,
        is_incoming: true,
        sent_status: false,
        verified_status: verified,
    };
    let id = match store.insert_message(row) {
        Ok(iid) => match iid.expect_i64() {
            Ok(id) => id,
            Err(_) => {
                proof {
                    assert(false);
                }
                return vstd::pervasive::unreached();
            },
        },
        Err(_) => {
            // the id space is exhausted; nothing was stored, so no event
            proof {
                assert forall|o: Seq<char>, t: Seq<char>, ts: nat, g: Seq<u8>|
                    #[trigger] spec_envelope_matches(body@, o, t, ts, g) implies o
                    == payload.onion_id@ by {
                    crate::message::lemma_envelope_fields_unique(
                        body@,
                        payload.onion_id@,
                        payload.text@,
                        payload.timestamp as nat,
                        sig@,
                        o,
                        t,
                        ts,
                        g,
                    );
                }
            }
            return Ok(InboundOutcome { stored: None, event: None, notify: false });
        },
    };
    let event = build_reload_event(payload.onion_id.as_str());
    let notify = should_notify(store, focus);
    let out = InboundOutcome { stored: Some(id), event: Some(event), notify };
    proof {
        let pre = *old(store);
        let post = *store;
        assert(post.messages@.drop_last() =~= pre.messages@);
        assert((#[trigger] post.messages@[post.messages@.len() - 1]).id == id);
        assert forall|o: Seq<char>, t: Seq<char>, ts: nat, g: Seq<u8>|
            #[trigger] spec_envelope_matches(body@, o, t, ts, g) implies contains_contact(
            pre.contacts@,
            o,
        ) by {
            crate::message::lemma_envelope_fields_unique(
                body@,
                payload.onion_id@,
                payload.text@,
                payload.timestamp as nat,
                sig@,
                o,
                t,
                ts,
                g,
            );
        }
        assert forall|o: Seq<char>, t: Seq<char>, ts: nat, g: Seq<u8>|
            spec_envelope_matches(body@, o, t, ts, g) implies #[trigger] spec_inbound_handled(
            pre,
            post,
            focus.focussed,
            out,
            o,
            t,
            ts,
            g,
        ) by {
            crate::message::lemma_envelope_fields_unique(
                body@,
                payload.onion_id@,
                payload.text@,
                payload.timestamp as nat,
                sig@,
                o,
                t,
                ts,
                g,
            );
            assert(o == payload.onion_id@ && t == payload.text@ && ts == payload.timestamp as nat
                && g == sig@);
            assert(pre.contacts@.contains(contact));
            let k = choose|k: int|
                0 <= k < pre.contacts@.len() && pre.contacts@[k] == contact;
            assert forall|m: int|
                0 <= m < pre.contacts@.len() && (#[trigger] pre.contacts@[m]).onion_id@
                    == o implies pre.contacts@[m] == contact by {
                if m != k {
                    assert(pre.contacts@[m].onion_id@ != pre.contacts@[k].onion_id@);
                }
            }
            assert(post.messages@.last().contact_onion_id@ == o);
            assert(post.messages@.last().verified_status == verified);
        }
    }
    Ok(out)
}

/// What a handled inbound frame from a known contact did: the parsed
/// payload was stored as an inbound row — verified exactly when the
/// signature checks out under the contact's stored key — and the reload
/// event for the sender's conversation was produced.
pub open spec fn spec_inbound_handled(
    pre: Store,
    post: Store,
    focussed: bool,
    out: InboundOutcome,
    o: Seq<char>,
    t: Seq<char>,
    ts: nat,
    g: Seq<u8>,
) -> bool {
    forall|m: int|
        0 <= m < pre.contacts@.len() && (#[trigger] pre.contacts@[m]).onion_id@ == o ==> {
            let c = pre.contacts@[m];
            let v = spec_inbound_verified(c.public_key@, o, t, ts, g);
            &&& post.messages@.len() == pre.messages@.len() + 1
            &&& post.messages@.drop_last() == pre.messages@
            &&& post.messages@.last().contact_onion_id@ == o
            &&& post.messages@.last().body@ == t
            &&& post.messages@.last().timestamp as nat == ts
            &&& post.messages@.last().is_incoming
            &&& !post.messages@.last().sent_status
            &&& post.messages@.last().verified_status == v
            &&& post.messages@.last().id == pre.next_message_id
            &&& out.stored == Some(pre.next_message_id as i64)
            &&& out.event is Some
            &&& out.event->0@ == spec_reload_event(o)
            &&& out.notify == (Store::spec_config_lookup(pre.config@, "enable_notifications"@)
                == Some("true"@) && !focussed)
        }
}

/// Build the framed, signed wire bytes for an outbound message: the
/// canonical signed envelope followed by the frame terminator. The embedded
/// signature verifies under the sender's public key.
pub fn build_outbound_frame(secret: &[u8; 32], self_onion_id: &str, text: &str, timestamp: i64) -> (
    r: Vec<u8>)
    requires
        0 <= timestamp < DEC_LIMIT,
    ensures
        r@ == spec_frame(
            crate::message::spec_signed_envelope(
                text_bytes(self_onion_id@),
                text_bytes(text@),
                timestamp as nat,
                ed25519_signature(
                    secret@,
                    spec_payload_json(
                        text_bytes(self_onion_id@),
                        text_bytes(text@),
                        timestamp as nat,
                    ),
                ),
            ),
        ),
{
    let payload = MessagePayload {
        onion_id: String::from_str(self_onion_id),
        text: String::from_str(text),
        timestamp,
    };
    let sig = sign_payload(secret, &payload);
    let envelope = encode_signed_message(&payload, &sig);
    write_frame(&envelope)
}

/// Mark one message delivered after a successful send; every other row is
/// untouched.
pub fn mark_delivered(store: &mut Store, message_id: i64)
    requires
        old(store).wf(),
    ensures
        final(store).wf(),
        final(store).messages@.len() == old(store).messages@.len(),
        forall|i: int|
            0 <= i < old(store).messages@.len() ==> final(store).messages@[i] == (if old(
                store,
            ).messages@[i].id == message_id {
                (MessageDb { sent_status: true, ..old(store).messages@[i] })
            } else {
                old(store).messages@[i]
            }),
        final(store).users@ == old(store).users@,
        final(store).contacts@ == old(store).contacts@,
        final(store).config@ == old(store).config@,
        final(store).next_message_id == old(store).next_message_id,
{
    let upd = UpdateMessageDb { id: message_id, sent_status: Some(true) };
    store.update_message(&upd);
}

/// Follow-up of the interactive send path: mark the row delivered when the
/// send succeeded, and always hand back the reload hint for the
/// conversation, so the UI reloads whether or not delivery worked.
pub fn send_message_follow_up(store: &mut Store, message_id: i64, to: &str, success: bool) -> (
    event: Vec<u8>)
    requires
        old(store).wf(),
    ensures
        final(store).wf(),
        event@ == spec_reload_event(to@),
        success ==> forall|i: int|
            0 <= i < old(store).messages@.len() ==> final(store).messages@[i] == (if old(
                store,
            ).messages@[i].id == message_id {
                (MessageDb { sent_status: true, ..old(store).messages@[i] })
            } else {
                old(store).messages@[i]
            }),
        !success ==> *final(store) == *old(store),
        final(store).users@ == old(store).users@,
        final(store).contacts@ == old(store).contacts@,
        final(store).config@ == old(store).config@,
{
    if success {
        mark_delivered(store, message_id);
    }
    build_reload_event(to)
}

/// Follow-up of one retry attempt: on success mark the row delivered and
/// hand back the reload hint; on failure leave the row unchanged, so the
/// next tick re-evaluates it, and emit nothing.
pub fn retry_follow_up(store: &mut Store, message_id: i64, contact_onion_id: &str, success: bool)
    -> (event: Option<Vec<u8>>)
    requires
        old(store).wf(),
    ensures
        final(store).wf(),
        match event {
            Some(e) => success && e@ == spec_reload_event(contact_onion_id@),
            None => !success,
        },
        success ==> forall|i: int|
            0 <= i < old(store).messages@.len() ==> final(store).messages@[i] == (if old(
                store,
            ).messages@[i].id == message_id {
                (MessageDb { sent_status: true, ..old(store).messages@[i] })
            } else {
                old(store).messages@[i]
            }),
        !success ==> *final(store) == *old(store),
        final(store).users@ == old(store).users@,
        final(store).contacts@ == old(store).contacts@,
        final(store).config@ == old(store).config@,
{
    if success {
        mark_delivered(store, message_id);
        Some(build_reload_event(contact_onion_id))
    } else {
        None
    }
}

} // verus!
