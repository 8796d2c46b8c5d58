//! Remote procedure calls between the UI and the daemon.
//!
//! The UI sends one JSON object per newline on the RPC socket; the tagged
//! `cmd` field picks the command. The parser accepts, per command, the two
//! key orders a serde-style serializer emits — the wire order of the command
//! table and the alphabetical order of a sorted map — with the standard JSON
//! string escapes, and nothing else. Replies are single JSON lines whose
//! strings escape every control character, so a reply is always exactly one
//! line of valid JSON. The router dispatches a
//! parsed command against the store; work that has to leave the process — a
//! peer send, a circuit reset, a reachability probe — comes back as an
//! action for the surrounding process, which reports the result to the
//! follow-up functions of the dispatcher.

use vstd::prelude::*;
use crate::db::{
    contains_contact, contains_user, sorted_by_activity_desc, sorted_by_timestamp_desc, Contact,
    ContactDb, MessageDb, Store, UpdateContactDb, UpdateUserDb, UserDb,
};
use crate::dispatch::build_outbound_frame;
use crate::error::{spec_rpc_error_message, ConfigError, DatabaseError, RpcError};
use crate::json::{
    dec, jescape, jstring_at, lemma_jescape_unique, match_lit, parse_jstring, push_all,
    push_dec_u64, push_jstring, spec_jstring, DEC_LIMIT,
};
use crate::message::spec_payload_json;
use crate::text::{string_from_utf8, text_bytes};
use crate::ui_focus::{set_focussed, FocusState};
use vstd::pervasive::unreached;

verus! {

/// The commands the daemon recognizes, tagged by the `cmd` field.
pub enum RpcCommand {
    /// Load all contacts with their computed activity.
    LoadContacts,
    /// Load the chat with one contact.
    LoadChat {
        /// The peer whose chat to load.
        onion_id: String,
    },
    /// Send a text to a peer.
    SendMessage {
        /// The receiving peer.
        to: String,
        /// The message text.
        text: String,
    },
    /// Add a contact.
    AddContact {
        /// Name the user gave the peer.
        nickname: String,
        /// The peer's address.
        onion_id: String,
        /// The peer's hex-encoded verifying key.
        public_key: String,
    },
    /// Update a contact's nickname or key.
    UpdateContact {
        /// The contact to update.
        onion_id: String,
        /// New nickname, if any.
        nickname: Option<String>,
        /// New verifying key, if any.
        public_key: Option<String>,
    },
    /// Load the local identity row.
    LoadUser,
    /// Update the local identity's keys.
    UpdateUser {
        /// New verifying key, if any.
        public_key: Option<String>,
        /// New signing key, if any.
        private_key: Option<String>,
    },
    /// Delete the messages with one contact.
    DeleteContactMessages {
        /// The contact whose messages to delete.
        onion_id: String,
    },
    /// Delete a contact and, by cascade, its messages.
    DeleteContact {
        /// The contact to delete.
        onion_id: String,
    },
    /// Delete every contact and every message.
    DeleteAllContacts,
    /// Build a fresh overlay circuit.
    ResetTorCircuit,
    /// Report whether the UI is focussed.
    SendAppFocusState {
        /// The reported focus state.
        focussed: bool,
    },
    /// Read a config value.
    GetConfigValue {
        /// The config key.
        key: String,
    },
    /// Set a config value.
    SetConfigValue {
        /// The config key.
        key: String,
        /// The value to store.
        value: String,
    },
    /// Probe the own hidden service for reachability.
    PingHiddenService,
    /// Liveness check of the daemon itself.
    PingDaemon,
}


/// Key `onion_id`.
pub open spec fn n_onion_id() -> Seq<u8> {
    seq![111u8, 110, 105, 111, 110, 95, 105, 100]
}

/// Exec bytes of the key `onion_id`.
pub fn kv_onion_id() -> (r: Vec<u8>)
    ensures
        r@ == n_onion_id(),
{
    let r: Vec<u8> = vec![111u8, 110, 105, 111, 110, 95, 105, 100];
    proof {
        assert(r@ =~= n_onion_id());
    }
    r
}

/// Key `nickname`.
pub open spec fn n_nickname() -> Seq<u8> {
    seq![110u8, 105, 99, 107, 110, 97, 109, 101]
}

/// Exec bytes of the key `nickname`.
pub fn kv_nickname() -> (r: Vec<u8>)
    ensures
        r@ == n_nickname(),
{
    let r: Vec<u8> = vec![110u8, 105, 99, 107, 110, 97, 109, 101];
    proof {
        assert(r@ =~= n_nickname());
    }
    r
}

/// Key `public_key`.
pub open spec fn n_public_key() -> Seq<u8> {
    seq![112u8, 117, 98, 108, 105, 99, 95, 107, 101, 121]
}

/// Exec bytes of the key `public_key`.
pub fn kv_public_key() -> (r: Vec<u8>)
    ensures
        r@ == n_public_key(),
{
    let r: Vec<u8> = vec![112u8, 117, 98, 108, 105, 99, 95, 107, 101, 121];
    proof {
        assert(r@ =~= n_public_key());
    }
    r
}

/// Key `private_key`.
pub open spec fn n_private_key() -> Seq<u8> {
    seq![112u8, 114, 105, 118, 97, 116, 101, 95, 107, 101, 121]
}

/// Exec bytes of the key `private_key`.
pub fn kv_private_key() -> (r: Vec<u8>)
    ensures
        r@ == n_private_key(),
{
    let r: Vec<u8> = vec![112u8, 114, 105, 118, 97, 116, 101, 95, 107, 101, 121];
    proof {
        assert(r@ =~= n_private_key());
    }
    r
}

/// Key `to`.
pub open spec fn n_to() -> Seq<u8> {
    seq![116u8, 111]
}

/// Exec bytes of the key `to`.
pub fn kv_to() -> (r: Vec<u8>)
    ensures
        r@ == n_to(),
{
    let r: Vec<u8> = vec![116u8, 111];
    proof {
        assert(r@ =~= n_to());
    }
    r
}

/// Key `text`.
pub open spec fn n_text() -> Seq<u8> {
    seq![116u8, 101, 120, 116]
}

/// Exec bytes of the key `text`.
pub fn kv_text() -> (r: Vec<u8>)
    ensures
        r@ == n_text(),
{
    let r: Vec<u8> = vec![116u8, 101, 120, 116];
    proof {
        assert(r@ =~= n_text());
    }
    r
}

/// Key `focussed`.
pub open spec fn n_focussed() -> Seq<u8> {
    seq![102u8, 111, 99, 117, 115, 115, 101, 100]
}

/// Exec bytes of the key `focussed`.
pub fn kv_focussed() -> (r: Vec<u8>)
    ensures
        r@ == n_focussed(),
{
    let r: Vec<u8> = vec![102u8, 111, 99, 117, 115, 115, 101, 100];
    proof {
        assert(r@ =~= n_focussed());
    }
    r
}

/// Key `key`.
pub open spec fn n_key() -> Seq<u8> {
    seq![107u8, 101, 121]
}

/// Exec bytes of the key `key`.
pub fn kv_key() -> (r: Vec<u8>)
    ensures
        r@ == n_key(),
{
    let r: Vec<u8> = vec![107u8, 101, 121];
    proof {
        assert(r@ =~= n_key());
    }
    r
}

/// Key `value`.
pub open spec fn n_value() -> Seq<u8> {
    seq![118u8, 97, 108, 117, 101]
}

/// Exec bytes of the key `value`.
pub fn kv_value() -> (r: Vec<u8>)
    ensures
        r@ == n_value(),
{
    let r: Vec<u8> = vec![118u8, 97, 108, 117, 101];
    proof {
        assert(r@ =~= n_value());
    }
    r
}

/// Key `success`.
pub open spec fn n_success() -> Seq<u8> {
    seq![115u8, 117, 99, 99, 101, 115, 115]
}

/// Exec bytes of the key `success`.
pub fn kv_success() -> (r: Vec<u8>)
    ensures
        r@ == n_success(),
{
    let r: Vec<u8> = vec![115u8, 117, 99, 99, 101, 115, 115];
    proof {
        assert(r@ =~= n_success());
    }
    r
}

/// Key `error`.
pub open spec fn n_error() -> Seq<u8> {
    seq![101u8, 114, 114, 111, 114]
}

/// Exec bytes of the key `error`.
pub fn kv_error() -> (r: Vec<u8>)
    ensures
        r@ == n_error(),
{
    let r: Vec<u8> = vec![101u8, 114, 114, 111, 114];
    proof {
        assert(r@ =~= n_error());
    }
    r
}

/// Key `contacts`.
pub open spec fn n_contacts() -> Seq<u8> {
    seq![99u8, 111, 110, 116, 97, 99, 116, 115]
}

/// Exec bytes of the key `contacts`.
pub fn kv_contacts() -> (r: Vec<u8>)
    ensures
        r@ == n_contacts(),
{
    let r: Vec<u8> = vec![99u8, 111, 110, 116, 97, 99, 116, 115];
    proof {
        assert(r@ =~= n_contacts());
    }
    r
}

/// Key `messages`.
pub open spec fn n_messages() -> Seq<u8> {
    seq![109u8, 101, 115, 115, 97, 103, 101, 115]
}

/// Exec bytes of the key `messages`.
pub fn kv_messages() -> (r: Vec<u8>)
    ensures
        r@ == n_messages(),
{
    let r: Vec<u8> = vec![109u8, 101, 115, 115, 97, 103, 101, 115];
    proof {
        assert(r@ =~= n_messages());
    }
    r
}

/// Key `user`.
pub open spec fn n_user() -> Seq<u8> {
    seq![117u8, 115, 101, 114]
}

/// Exec bytes of the key `user`.
pub fn kv_user() -> (r: Vec<u8>)
    ensures
        r@ == n_user(),
{
    let r: Vec<u8> = vec![117u8, 115, 101, 114];
    proof {
        assert(r@ =~= n_user());
    }
    r
}

/// Key `id`.
pub open spec fn n_id() -> Seq<u8> {
    seq![105u8, 100]
}

/// Exec bytes of the key `id`.
pub fn kv_id() -> (r: Vec<u8>)
    ensures
        r@ == n_id(),
{
    let r: Vec<u8> = vec![105u8, 100];
    proof {
        assert(r@ =~= n_id());
    }
    r
}

/// Key `contact_onion_id`.
pub open spec fn n_contact_onion_id() -> Seq<u8> {
    seq![99u8, 111, 110, 116, 97, 99, 116, 95, 111, 110, 105, 111, 110, 95, 105, 100]
}

/// Exec bytes of the key `contact_onion_id`.
pub fn kv_contact_onion_id() -> (r: Vec<u8>)
    ensures
        r@ == n_contact_onion_id(),
{
    let r: Vec<u8> = vec![99u8, 111, 110, 116, 97, 99, 116, 95, 111, 110, 105, 111, 110, 95, 105, 100];
    proof {
        assert(r@ =~= n_contact_onion_id());
    }
    r
}

/// Key `body`.
pub open spec fn n_body() -> Seq<u8> {
    seq![98u8, 111, 100, 121]
}

/// Exec bytes of the key `body`.
pub fn kv_body() -> (r: Vec<u8>)
    ensures
        r@ == n_body(),
{
    let r: Vec<u8> = vec![98u8, 111, 100, 121];
    proof {
        assert(r@ =~= n_body());
    }
    r
}

/// Key `timestamp`.
pub open spec fn n_timestamp() -> Seq<u8> {
    seq![116u8, 105, 109, 101, 115, 116, 97, 109, 112]
}

/// Exec bytes of the key `timestamp`.
pub fn kv_timestamp() -> (r: Vec<u8>)
    ensures
        r@ == n_timestamp(),
{
    let r: Vec<u8> = vec![116u8, 105, 109, 101, 115, 116, 97, 109, 112];
    proof {
        assert(r@ =~= n_timestamp());
    }
    r
}

/// Key `is_incoming`.
pub open spec fn n_is_incoming() -> Seq<u8> {
    seq![105u8, 115, 95, 105, 110, 99, 111, 109, 105, 110, 103]
}

/// Exec bytes of the key `is_incoming`.
pub fn kv_is_incoming() -> (r: Vec<u8>)
    ensures
        r@ == n_is_incoming(),
{
    let r: Vec<u8> = vec![105u8, 115, 95, 105, 110, 99, 111, 109, 105, 110, 103];
    proof {
        assert(r@ =~= n_is_incoming());
    }
    r
}

/// Key `sent_status`.
pub open spec fn n_sent_status() -> Seq<u8> {
    seq![115u8, 101, 110, 116, 95, 115, 116, 97, 116, 117, 115]
}

/// Exec bytes of the key `sent_status`.
pub fn kv_sent_status() -> (r: Vec<u8>)
    ensures
        r@ == n_sent_status(),
{
    let r: Vec<u8> = vec![115u8, 101, 110, 116, 95, 115, 116, 97, 116, 117, 115];
    proof {
        assert(r@ =~= n_sent_status());
    }
    r
}

/// Key `verified_status`.
pub open spec fn n_verified_status() -> Seq<u8> {
    seq![118u8, 101, 114, 105, 102, 105, 101, 100, 95, 115, 116, 97, 116, 117, 115]
}

/// Exec bytes of the key `verified_status`.
pub fn kv_verified_status() -> (r: Vec<u8>)
    ensures
        r@ == n_verified_status(),
{
    let r: Vec<u8> = vec![118u8, 101, 114, 105, 102, 105, 101, 100, 95, 115, 116, 97, 116, 117, 115];
    proof {
        assert(r@ =~= n_verified_status());
    }
    r
}

/// Key `last_message_at`.
pub open spec fn n_last_message_at() -> Seq<u8> {
    seq![108u8, 97, 115, 116, 95, 109, 101, 115, 115, 97, 103, 101, 95, 97, 116]
}

/// Exec bytes of the key `last_message_at`.
pub fn kv_last_message_at() -> (r: Vec<u8>)
    ensures
        r@ == n_last_message_at(),
{
    let r: Vec<u8> = vec![108u8, 97, 115, 116, 95, 109, 101, 115, 115, 97, 103, 101, 95, 97, 116];
    proof {
        assert(r@ =~= n_last_message_at());
    }
    r
}

/// Key `last_viewed_at`.
pub open spec fn n_last_viewed_at() -> Seq<u8> {
    seq![108u8, 97, 115, 116, 95, 118, 105, 101, 119, 101, 100, 95, 97, 116]
}

/// Exec bytes of the key `last_viewed_at`.
pub fn kv_last_viewed_at() -> (r: Vec<u8>)
    ensures
        r@ == n_last_viewed_at(),
{
    let r: Vec<u8> = vec![108u8, 97, 115, 116, 95, 118, 105, 101, 119, 101, 100, 95, 97, 116];
    proof {
        assert(r@ =~= n_last_viewed_at());
    }
    r
}

/// Key `unread_count`.
pub open spec fn n_unread_count() -> Seq<u8> {
    seq![117u8, 110, 114, 101, 97, 100, 95, 99, 111, 117, 110, 116]
}

/// Exec bytes of the key `unread_count`.
pub fn kv_unread_count() -> (r: Vec<u8>)
    ensures
        r@ == n_unread_count(),
{
    let r: Vec<u8> = vec![117u8, 110, 114, 101, 97, 100, 95, 99, 111, 117, 110, 116];
    proof {
        assert(r@ =~= n_unread_count());
    }
    r
}

/// Key `cmd`.
pub open spec fn n_cmd() -> Seq<u8> {
    seq![99u8, 109, 100]
}

/// Command tag `LoadContacts`.
pub open spec fn cmd_loadcontacts() -> Seq<u8> {
    seq![76u8, 111, 97, 100, 67, 111, 110, 116, 97, 99, 116, 115]
}

/// Exec bytes of the command tag `LoadContacts`.
pub fn kv_cmd_loadcontacts() -> (r: Vec<u8>)
    ensures
        r@ == cmd_loadcontacts(),
{
    let r: Vec<u8> = vec![76u8, 111, 97, 100, 67, 111, 110, 116, 97, 99, 116, 115];
    proof {
        assert(r@ =~= cmd_loadcontacts());
    }
    r
}

/// Command tag `LoadChat`.
pub open spec fn cmd_loadchat() -> Seq<u8> {
    seq![76u8, 111, 97, 100, 67, 104, 97, 116]
}

/// Exec bytes of the command tag `LoadChat`.
pub fn kv_cmd_loadchat() -> (r: Vec<u8>)
    ensures
        r@ == cmd_loadchat(),
{
    let r: Vec<u8> = vec![76u8, 111, 97, 100, 67, 104, 97, 116];
    proof {
        assert(r@ =~= cmd_loadchat());
    }
    r
}

/// Command tag `SendMessage`.
pub open spec fn cmd_sendmessage() -> Seq<u8> {
    seq![83u8, 101, 110, 100, 77, 101, 115, 115, 97, 103, 101]
}

/// Exec bytes of the command tag `SendMessage`.
pub fn kv_cmd_sendmessage() -> (r: Vec<u8>)
    ensures
        r@ == cmd_sendmessage(),
{
    let r: Vec<u8> = vec![83u8, 101, 110, 100, 77, 101, 115, 115, 97, 103, 101];
    proof {
        assert(r@ =~= cmd_sendmessage());
    }
    r
}

/// Command tag `AddContact`.
pub open spec fn cmd_addcontact() -> Seq<u8> {
    seq![65u8, 100, 100, 67, 111, 110, 116, 97, 99, 116]
}

/// Exec bytes of the command tag `AddContact`.
pub fn kv_cmd_addcontact() -> (r: Vec<u8>)
    ensures
        r@ == cmd_addcontact(),
{
    let r: Vec<u8> = vec![65u8, 100, 100, 67, 111, 110, 116, 97, 99, 116];
    proof {
        assert(r@ =~= cmd_addcontact());
    }
    r
}

/// Command tag `UpdateContact`.
pub open spec fn cmd_updatecontact() -> Seq<u8> {
    seq![85u8, 112, 100, 97, 116, 101, 67, 111, 110, 116, 97, 99, 116]
}

/// Exec bytes of the command tag `UpdateContact`.
pub fn kv_cmd_updatecontact() -> (r: Vec<u8>)
    ensures
        r@ == cmd_updatecontact(),
{
    let r: Vec<u8> = vec![85u8, 112, 100, 97, 116, 101, 67, 111, 110, 116, 97, 99, 116];
    proof {
        assert(r@ =~= cmd_updatecontact());
    }
    r
}

/// Command tag `LoadUser`.
pub open spec fn cmd_loaduser() -> Seq<u8> {
    seq![76u8, 111, 97, 100, 85, 115, 101, 114]
}

/// Exec bytes of the command tag `LoadUser`.
pub fn kv_cmd_loaduser() -> (r: Vec<u8>)
    ensures
        r@ == cmd_loaduser(),
{
    let r: Vec<u8> = vec![76u8, 111, 97, 100, 85, 115, 101, 114];
    proof {
        assert(r@ =~= cmd_loaduser());
    }
    r
}

/// Command tag `UpdateUser`.
pub open spec fn cmd_updateuser() -> Seq<u8> {
    seq![85u8, 112, 100, 97, 116, 101, 85, 115, 101, 114]
}

/// Exec bytes of the command tag `UpdateUser`.
pub fn kv_cmd_updateuser() -> (r: Vec<u8>)
    ensures
        r@ == cmd_updateuser(),
{
    let r: Vec<u8> = vec![85u8, 112, 100, 97, 116, 101, 85, 115, 101, 114];
    proof {
        assert(r@ =~= cmd_updateuser());
    }
    r
}

/// Command tag `DeleteContactMessages`.
pub open spec fn cmd_deletecontactmessages() -> Seq<u8> {
    seq![68u8, 101, 108, 101, 116, 101, 67, 111, 110, 116, 97, 99, 116, 77, 101, 115, 115, 97, 103, 101, 115]
}

/// Exec bytes of the command tag `DeleteContactMessages`.
pub fn kv_cmd_deletecontactmessages() -> (r: Vec<u8>)
    ensures
        r@ == cmd_deletecontactmessages(),
{
    let r: Vec<u8> = vec![68u8, 101, 108, 101, 116, 101, 67, 111, 110, 116, 97, 99, 116, 77, 101, 115, 115, 97, 103, 101, 115];
    proof {
        assert(r@ =~= cmd_deletecontactmessages());
    }
    r
}

/// Command tag `DeleteContact`.
pub open spec fn cmd_deletecontact() -> Seq<u8> {
    seq![68u8, 101, 108, 101, 116, 101, 67, 111, 110, 116, 97, 99, 116]
}

/// Exec bytes of the command tag `DeleteContact`.
pub fn kv_cmd_deletecontact() -> (r: Vec<u8>)
    ensures
        r@ == cmd_deletecontact(),
{
    let r: Vec<u8> = vec![68u8, 101, 108, 101, 116, 101, 67, 111, 110, 116, 97, 99, 116];
    proof {
        assert(r@ =~= cmd_deletecontact());
    }
    r
}

/// Command tag `DeleteAllContacts`.
pub open spec fn cmd_deleteallcontacts() -> Seq<u8> {
    seq![68u8, 101, 108, 101, 116, 101, 65, 108, 108, 67, 111, 110, 116, 97, 99, 116, 115]
}

/// Exec bytes of the command tag `DeleteAllContacts`.
pub fn kv_cmd_deleteallcontacts() -> (r: Vec<u8>)
    ensures
        r@ == cmd_deleteallcontacts(),
{
    let r: Vec<u8> = vec![68u8, 101, 108, 101, 116, 101, 65, 108, 108, 67, 111, 110, 116, 97, 99, 116, 115];
    proof {
        assert(r@ =~= cmd_deleteallcontacts());
    }
    r
}

/// Command tag `ResetTorCircuit`.
pub open spec fn cmd_resettorcircuit() -> Seq<u8> {
    seq![82u8, 101, 115, 101, 116, 84, 111, 114, 67, 105, 114, 99, 117, 105, 116]
}

/// Exec bytes of the command tag `ResetTorCircuit`.
pub fn kv_cmd_resettorcircuit() -> (r: Vec<u8>)
    ensures
        r@ == cmd_resettorcircuit(),
{
    let r: Vec<u8> = vec![82u8, 101, 115, 101, 116, 84, 111, 114, 67, 105, 114, 99, 117, 105, 116];
    proof {
        assert(r@ =~= cmd_resettorcircuit());
    }
    r
}

/// Command tag `SendAppFocusState`.
pub open spec fn cmd_sendappfocusstate() -> Seq<u8> {
    seq![83u8, 101, 110, 100, 65, 112, 112, 70, 111, 99, 117, 115, 83, 116, 97, 116, 101]
}

/// Exec bytes of the command tag `SendAppFocusState`.
pub fn kv_cmd_sendappfocusstate() -> (r: Vec<u8>)
    ensures
        r@ == cmd_sendappfocusstate(),
{
    let r: Vec<u8> = vec![83u8, 101, 110, 100, 65, 112, 112, 70, 111, 99, 117, 115, 83, 116, 97, 116, 101];
    proof {
        assert(r@ =~= cmd_sendappfocusstate());
    }
    r
}

/// Command tag `GetConfigValue`.
pub open spec fn cmd_getconfigvalue() -> Seq<u8> {
    seq![71u8, 101, 116, 67, 111, 110, 102, 105, 103, 86, 97, 108, 117, 101]
}

/// Exec bytes of the command tag `GetConfigValue`.
pub fn kv_cmd_getconfigvalue() -> (r: Vec<u8>)
    ensures
        r@ == cmd_getconfigvalue(),
{
    let r: Vec<u8> = vec![71u8, 101, 116, 67, 111, 110, 102, 105, 103, 86, 97, 108, 117, 101];
    proof {
        assert(r@ =~= cmd_getconfigvalue());
    }
    r
}

/// Command tag `SetConfigValue`.
pub open spec fn cmd_setconfigvalue() -> Seq<u8> {
    seq![83u8, 101, 116, 67, 111, 110, 102, 105, 103, 86, 97, 108, 117, 101]
}

/// Exec bytes of the command tag `SetConfigValue`.
pub fn kv_cmd_setconfigvalue() -> (r: Vec<u8>)
    ensures
        r@ == cmd_setconfigvalue(),
{
    let r: Vec<u8> = vec![83u8, 101, 116, 67, 111, 110, 102, 105, 103, 86, 97, 108, 117, 101];
    proof {
        assert(r@ =~= cmd_setconfigvalue());
    }
    r
}

/// Command tag `PingHiddenService`.
pub open spec fn cmd_pinghiddenservice() -> Seq<u8> {
    seq![80u8, 105, 110, 103, 72, 105, 100, 100, 101, 110, 83, 101, 114, 118, 105, 99, 101]
}

/// Exec bytes of the command tag `PingHiddenService`.
pub fn kv_cmd_pinghiddenservice() -> (r: Vec<u8>)
    ensures
        r@ == cmd_pinghiddenservice(),
{
    let r: Vec<u8> = vec![80u8, 105, 110, 103, 72, 105, 100, 100, 101, 110, 83, 101, 114, 118, 105, 99, 101];
    proof {
        assert(r@ =~= cmd_pinghiddenservice());
    }
    r
}

/// Command tag `PingDaemon`.
pub open spec fn cmd_pingdaemon() -> Seq<u8> {
    seq![80u8, 105, 110, 103, 68, 97, 101, 109, 111, 110]
}

/// Exec bytes of the command tag `PingDaemon`.
pub fn kv_cmd_pingdaemon() -> (r: Vec<u8>)
    ensures
        r@ == cmd_pingdaemon(),
{
    let r: Vec<u8> = vec![80u8, 105, 110, 103, 68, 97, 101, 109, 111, 110];
    proof {
        assert(r@ =~= cmd_pingdaemon());
    }
    r
}

// --- The canonical request format ---

/// `{"cmd":` followed by the quoted command tag.
pub open spec fn spec_cmd_head(name: Seq<u8>) -> Seq<u8> {
    seq![123u8, 34] + n_cmd() + seq![34u8, 58] + spec_jstring(name)
}

/// A string field: comma, quoted key, colon, canonical string value.
pub open spec fn fld_str(name: Seq<u8>, v: Seq<char>) -> Seq<u8> {
    seq![44u8, 34] + name + seq![34u8, 58] + spec_jstring(text_bytes(v))
}

/// `true` or `false`.
pub open spec fn bool_bytes(b: bool) -> Seq<u8> {
    if b {
        seq![116u8, 114, 117, 101]
    } else {
        seq![102u8, 97, 108, 115, 101]
    }
}

/// A boolean field: comma, quoted key, colon, bare boolean.
pub open spec fn fld_bool(name: Seq<u8>, b: bool) -> Seq<u8> {
    seq![44u8, 34] + name + seq![34u8, 58] + bool_bytes(b)
}

/// `null`.
pub open spec fn null_bytes() -> Seq<u8> {
    seq![110u8, 117, 108, 108]
}

/// An optional string field: comma, quoted key, colon, then the canonical
/// string value or `null`.
pub open spec fn opt_fld_str(name: Seq<u8>, v: Option<Seq<char>>) -> Seq<u8> {
    seq![44u8, 34] + name + seq![34u8, 58] + (match v {
        Some(s) => spec_jstring(text_bytes(s)),
        None => null_bytes(),
    })
}

/// View of an optional owned string.
pub open spec fn opt_view(v: Option<String>) -> Option<Seq<char>> {
    match v {
        Some(s) => Some(s@),
        None => None,
    }
}

/// The command tag of a request.
pub open spec fn cmd_name(c: RpcCommand) -> Seq<u8> {
    match c {
        RpcCommand::LoadContacts => cmd_loadcontacts(),
        RpcCommand::LoadChat { .. } => cmd_loadchat(),
        RpcCommand::SendMessage { .. } => cmd_sendmessage(),
        RpcCommand::AddContact { .. } => cmd_addcontact(),
        RpcCommand::UpdateContact { .. } => cmd_updatecontact(),
        RpcCommand::LoadUser => cmd_loaduser(),
        RpcCommand::UpdateUser { .. } => cmd_updateuser(),
        RpcCommand::DeleteContactMessages { .. } => cmd_deletecontactmessages(),
        RpcCommand::DeleteContact { .. } => cmd_deletecontact(),
        RpcCommand::DeleteAllContacts => cmd_deleteallcontacts(),
        RpcCommand::ResetTorCircuit => cmd_resettorcircuit(),
        RpcCommand::SendAppFocusState { .. } => cmd_sendappfocusstate(),
        RpcCommand::GetConfigValue { .. } => cmd_getconfigvalue(),
        RpcCommand::SetConfigValue { .. } => cmd_setconfigvalue(),
        RpcCommand::PingHiddenService => cmd_pinghiddenservice(),
        RpcCommand::PingDaemon => cmd_pingdaemon(),
    }
}

/// The field bytes of a request, between the command tag and the closing
/// brace.
pub open spec fn cmd_fields(c: RpcCommand) -> Seq<u8> {
    match c {
        RpcCommand::LoadContacts => Seq::empty(),
        RpcCommand::LoadChat { onion_id } => fld_str(n_onion_id(), onion_id@),
        RpcCommand::SendMessage { to, text } => fld_str(n_to(), to@) + fld_str(n_text(), text@),
        RpcCommand::AddContact { nickname, onion_id, public_key } => fld_str(
            n_nickname(),
            nickname@,
        ) + fld_str(n_onion_id(), onion_id@) + fld_str(n_public_key(), public_key@),
        RpcCommand::UpdateContact { onion_id, nickname, public_key } => fld_str(
            n_onion_id(),
            onion_id@,
        ) + opt_fld_str(n_nickname(), opt_view(nickname)) + opt_fld_str(
            n_public_key(),
            opt_view(public_key),
        ),
        RpcCommand::LoadUser => Seq::empty(),
        RpcCommand::UpdateUser { public_key, private_key } => opt_fld_str(
            n_public_key(),
            opt_view(public_key),
        ) + opt_fld_str(n_private_key(), opt_view(private_key)),
        RpcCommand::DeleteContactMessages { onion_id } => fld_str(n_onion_id(), onion_id@),
        RpcCommand::DeleteContact { onion_id } => fld_str(n_onion_id(), onion_id@),
        RpcCommand::DeleteAllContacts => Seq::empty(),
        RpcCommand::ResetTorCircuit => Seq::empty(),
        RpcCommand::SendAppFocusState { focussed } => fld_bool(n_focussed(), focussed),
        RpcCommand::GetConfigValue { key } => fld_str(n_key(), key@),
        RpcCommand::SetConfigValue { key, value } => fld_str(n_key(), key@) + fld_str(
            n_value(),
            value@,
        ),
        RpcCommand::PingHiddenService => Seq::empty(),
        RpcCommand::PingDaemon => Seq::empty(),
    }
}

/// The canonical request line of a command, without the newline.
pub open spec fn spec_encode_command(c: RpcCommand) -> Seq<u8> {
    spec_cmd_head(cmd_name(c)) + cmd_fields(c) + seq![125u8]
}


/// The field bytes of a request with its keys in alphabetical order — the
/// order a serde-style serializer with a sorted map emits. It differs from
/// the canonical order only where a command's keys are not already sorted.
pub open spec fn cmd_fields_alpha(c: RpcCommand) -> Seq<u8> {
    match c {
        RpcCommand::SendMessage { to, text } => fld_str(n_text(), text@) + fld_str(n_to(), to@),
        RpcCommand::UpdateContact { onion_id, nickname, public_key } => opt_fld_str(
            n_nickname(),
            opt_view(nickname),
        ) + fld_str(n_onion_id(), onion_id@) + opt_fld_str(n_public_key(), opt_view(public_key)),
        RpcCommand::UpdateUser { public_key, private_key } => opt_fld_str(
            n_private_key(),
            opt_view(private_key),
        ) + opt_fld_str(n_public_key(), opt_view(public_key)),
        _ => cmd_fields(c),
    }
}

/// The request line of a command with alphabetically ordered keys.
pub open spec fn spec_encode_command_alpha(c: RpcCommand) -> Seq<u8> {
    spec_cmd_head(cmd_name(c)) + cmd_fields_alpha(c) + seq![125u8]
}

/// For every command whose keys are already sorted, the two orders coincide.
proof fn lemma_alpha_same(c: RpcCommand)
    ensures
        !(c is SendMessage) && !(c is UpdateContact) && !(c is UpdateUser) ==> cmd_fields_alpha(c)
            == cmd_fields(c),
{
    match c {
        RpcCommand::LoadContacts => {},
        RpcCommand::LoadChat { .. } => {},
        RpcCommand::SendMessage { .. } => {},
        RpcCommand::AddContact { .. } => {},
        RpcCommand::UpdateContact { .. } => {},
        RpcCommand::LoadUser => {},
        RpcCommand::UpdateUser { .. } => {},
        RpcCommand::DeleteContactMessages { .. } => {},
        RpcCommand::DeleteContact { .. } => {},
        RpcCommand::DeleteAllContacts => {},
        RpcCommand::ResetTorCircuit => {},
        RpcCommand::SendAppFocusState { .. } => {},
        RpcCommand::GetConfigValue { .. } => {},
        RpcCommand::SetConfigValue { .. } => {},
        RpcCommand::PingHiddenService => {},
        RpcCommand::PingDaemon => {},
    }
}

// --- Replies ---

/// A quoted object key with its colon.
pub open spec fn key_quoted(name: Seq<u8>) -> Seq<u8> {
    seq![34u8] + name + seq![34u8, 58]
}

/// `{"success":...}` plus newline.
pub open spec fn spec_success_reply(b: bool) -> Seq<u8> {
    seq![123u8] + key_quoted(n_success()) + bool_bytes(b) + seq![125u8, 10]
}

/// `{"value":...}` plus newline.
pub open spec fn spec_value_reply(v: Seq<char>) -> Seq<u8> {
    seq![123u8] + key_quoted(n_value()) + spec_jstring(text_bytes(v)) + seq![125u8, 10]
}

/// `{"error":...}` plus newline.
pub open spec fn spec_error_reply(m: Seq<char>) -> Seq<u8> {
    seq![123u8] + key_quoted(n_error()) + spec_jstring(text_bytes(m)) + seq![125u8, 10]
}

/// One contact of a `LoadContacts` reply.
pub open spec fn spec_contact_json(c: Contact) -> Seq<u8> {
    seq![123u8] + key_quoted(n_onion_id()) + spec_jstring(text_bytes(c.onion_id@)) + seq![44u8]
        + key_quoted(n_nickname()) + spec_jstring(text_bytes(c.nickname@)) + seq![44u8]
        + key_quoted(n_public_key()) + spec_jstring(text_bytes(c.public_key@)) + seq![44u8]
        + key_quoted(n_last_message_at()) + dec(c.last_message_at as nat) + seq![44u8]
        + key_quoted(n_last_viewed_at()) + dec(c.last_viewed_at as nat) + seq![44u8]
        + key_quoted(n_unread_count()) + dec(c.unread_count as nat) + seq![125u8]
}

/// One message of a `LoadChat` reply.
pub open spec fn spec_message_json(m: MessageDb) -> Seq<u8> {
    seq![123u8] + key_quoted(n_id()) + dec(m.id as nat) + seq![44u8]
        + key_quoted(n_contact_onion_id()) + spec_jstring(text_bytes(m.contact_onion_id@))
        + seq![44u8] + key_quoted(n_body()) + spec_jstring(text_bytes(m.body@)) + seq![44u8]
        + key_quoted(n_timestamp()) + dec(m.timestamp as nat) + seq![44u8]
        + key_quoted(n_is_incoming()) + bool_bytes(m.is_incoming) + seq![44u8]
        + key_quoted(n_sent_status()) + bool_bytes(m.sent_status) + seq![44u8]
        + key_quoted(n_verified_status()) + bool_bytes(m.verified_status) + seq![125u8]
}

/// The user object of a `LoadUser` reply.
pub open spec fn spec_user_json(u: UserDb) -> Seq<u8> {
    seq![123u8] + key_quoted(n_onion_id()) + spec_jstring(text_bytes(u.onion_id@)) + seq![44u8]
        + key_quoted(n_nickname()) + spec_jstring(text_bytes(u.nickname@)) + seq![44u8]
        + key_quoted(n_public_key()) + spec_jstring(text_bytes(u.public_key@)) + seq![44u8]
        + key_quoted(n_private_key()) + spec_jstring(text_bytes(u.private_key@)) + seq![125u8]
}

/// Comma-joined contact objects.
pub open spec fn spec_joined_contacts(cs: Seq<Contact>) -> Seq<u8>
    decreases cs.len(),
{
    if cs.len() == 0 {
        Seq::empty()
    } else if cs.len() == 1 {
        spec_contact_json(cs[0])
    } else {
        spec_joined_contacts(cs.drop_last()) + seq![44u8] + spec_contact_json(cs.last())
    }
}

/// Comma-joined message objects.
pub open spec fn spec_joined_messages(ms: Seq<MessageDb>) -> Seq<u8>
    decreases ms.len(),
{
    if ms.len() == 0 {
        Seq::empty()
    } else if ms.len() == 1 {
        spec_message_json(ms[0])
    } else {
        spec_joined_messages(ms.drop_last()) + seq![44u8] + spec_message_json(ms.last())
    }
}

/// `{"contacts":[...]}` plus newline.
pub open spec fn spec_contacts_reply(cs: Seq<Contact>) -> Seq<u8> {
    seq![123u8] + key_quoted(n_contacts()) + seq![91u8] + spec_joined_contacts(cs) + seq![93u8, 125, 10]
}

/// `{"messages":[...]}` plus newline.
pub open spec fn spec_messages_reply(ms: Seq<MessageDb>) -> Seq<u8> {
    seq![123u8] + key_quoted(n_messages()) + seq![91u8] + spec_joined_messages(ms) + seq![93u8, 125, 10]
}

/// `{"user":{...}}` plus newline.
pub open spec fn spec_user_reply(u: UserDb) -> Seq<u8> {
    seq![123u8] + key_quoted(n_user()) + spec_user_json(u) + seq![125u8, 10]
}

/// Append a quoted key and its colon.
fn push_key(out: &mut Vec<u8>, name: &[u8])
    ensures
        final(out)@ == old(out)@ + key_quoted(name@),
{
    out.push(34);
    push_all(out, name);
    out.push(34);
    out.push(58);
    proof {
        assert(out@ =~= old(out)@ + key_quoted(name@));
    }
}

/// Append `true` or `false`.
fn push_bool(out: &mut Vec<u8>, b: bool)
    ensures
        final(out)@ == old(out)@ + bool_bytes(b),
{
    if b {
        let lit: Vec<u8> = vec![116u8, 114, 117, 101];
        proof {
            assert(lit@ =~= bool_bytes(true));
        }
        push_all(out, lit.as_slice());
    } else {
        let lit: Vec<u8> = vec![102u8, 97, 108, 115, 101];
        proof {
            assert(lit@ =~= bool_bytes(false));
        }
        push_all(out, lit.as_slice());
    }
}

/// General success reply for calls that only report a success flag.
pub struct SuccessResponse {
    /// Whether the call succeeded.
    pub success: bool,
}

impl SuccessResponse {
    /// The reply line for this response.
    pub fn encode(&self) -> (r: Vec<u8>)
        ensures
            r@ == spec_success_reply(self.success),
    {
        success_reply(self.success)
    }
}

/// Encode `{"success":...}` plus newline.
pub fn success_reply(b: bool) -> (r: Vec<u8>)
    ensures
        r@ == spec_success_reply(b),
{
    let mut out: Vec<u8> = Vec::new();
    out.push(123);
    let k = kv_success();
    push_key(&mut out, k.as_slice());
    push_bool(&mut out, b);
    out.push(125);
    out.push(10);
    proof {
        assert(out@ =~= spec_success_reply(b));
    }
    out
}

/// Encode `{"value":...}` plus newline.
pub fn value_reply(v: &str) -> (r: Vec<u8>)
    ensures
        r@ == spec_value_reply(v@),
{
    let mut out: Vec<u8> = Vec::new();
    out.push(123);
    let k = kv_value();
    push_key(&mut out, k.as_slice());
    push_jstring(&mut out, v.as_bytes());
    out.push(125);
    out.push(10);
    proof {
        assert(out@ =~= spec_value_reply(v@));
    }
    out
}

/// Encode the error reply line for a failed command.
pub fn reply_rpc_error(err: &RpcError) -> (r: Vec<u8>)
    ensures
        r@ == spec_error_reply(spec_rpc_error_message(*err)),
{
    let msg = err.message();
    let mut out: Vec<u8> = Vec::new();
    out.push(123);
    let k = kv_error();
    push_key(&mut out, k.as_slice());
    push_jstring(&mut out, msg.as_str().as_bytes());
    out.push(125);
    out.push(10);
    proof {
        assert(out@ =~= spec_error_reply(spec_rpc_error_message(*err)));
    }
    out
}

/// Encode one contact object.
#[verifier::rlimit(100)]
fn push_contact_json(out: &mut Vec<u8>, c: &Contact)
    requires
        c.last_message_at >= 0,
        c.last_viewed_at >= 0,
    ensures
        final(out)@ == old(out)@ + spec_contact_json(*c),
{
    out.push(123);
    let k = kv_onion_id();
    push_key(out, k.as_slice());
    push_jstring(out, c.onion_id.as_str().as_bytes());
    out.push(44);
    let k = kv_nickname();
    push_key(out, k.as_slice());
    push_jstring(out, c.nickname.as_str().as_bytes());
    out.push(44);
    let k = kv_public_key();
    push_key(out, k.as_slice());
    push_jstring(out, c.public_key.as_str().as_bytes());
    out.push(44);
    let k = kv_last_message_at();
    push_key(out, k.as_slice());
    push_dec_u64(out, c.last_message_at as u64);
    out.push(44);
    let k = kv_last_viewed_at();
    push_key(out, k.as_slice());
    push_dec_u64(out, c.last_viewed_at as u64);
    out.push(44);
    let k = kv_unread_count();
    push_key(out, k.as_slice());
    push_dec_u64(out, c.unread_count);
    out.push(125);
    proof {
        assert(out@ =~= old(out)@ + spec_contact_json(*c));
    }
}

/// Encode one message object.
#[verifier::rlimit(100)]
fn push_message_json(out: &mut Vec<u8>, m: &MessageDb)
    requires
        m.id >= 0,
        m.timestamp >= 0,
    ensures
        final(out)@ == old(out)@ + spec_message_json(*m),
{
    out.push(123);
    let k = kv_id();
    push_key(out, k.as_slice());
    push_dec_u64(out, m.id as u64);
    out.push(44);
    let k = kv_contact_onion_id();
    push_key(out, k.as_slice());
    push_jstring(out, m.contact_onion_id.as_str().as_bytes());
    out.push(44);
    let k = kv_body();
    push_key(out, k.as_slice());
    push_jstring(out, m.body.as_str().as_bytes());
    out.push(44);
    let k = kv_timestamp();
    push_key(out, k.as_slice());
    push_dec_u64(out, m.timestamp as u64);
    out.push(44);
    let k = kv_is_incoming();
    push_key(out, k.as_slice());
    push_bool(out, m.is_incoming);
    out.push(44);
    let k = kv_sent_status();
    push_key(out, k.as_slice());
    push_bool(out, m.sent_status);
    out.push(44);
    let k = kv_verified_status();
    push_key(out, k.as_slice());
    push_bool(out, m.verified_status);
    out.push(125);
    proof {
        assert(out@ =~= old(out)@ + spec_message_json(*m));
    }
}

/// Encode `{"contacts":[...]}` plus newline.
pub fn contacts_reply(cs: &Vec<Contact>) -> (r: Vec<u8>)
    requires
        forall|i: int|
            0 <= i < cs@.len() ==> (#[trigger] cs@[i]).last_message_at >= 0
                && cs@[i].last_viewed_at >= 0,
    ensures
        r@ == spec_contacts_reply(cs@),
{
    let mut out: Vec<u8> = Vec::new();
    out.push(123);
    let k = kv_contacts();
    push_key(&mut out, k.as_slice());
    out.push(91);
    let ghost head = out@;
    let mut i: usize = 0;
    while i < cs.len()
        invariant
            i <= cs@.len(),
            out@ == head + spec_joined_contacts(cs@.subrange(0, i as int)),
            forall|q: int|
                0 <= q < cs@.len() ==> (#[trigger] cs@[q]).last_message_at >= 0
                    && cs@[q].last_viewed_at >= 0,
        decreases cs@.len() - i,
    {
        proof {
            assert(cs@.subrange(0, i as int + 1).drop_last() =~= cs@.subrange(0, i as int));
            assert(cs@.subrange(0, i as int + 1).last() == cs@[i as int]);
            assert(cs@.subrange(0, 1).len() == 1);
        }
        if i > 0 {
            out.push(44);
        }
        push_contact_json(&mut out, &cs[i]);
        proof {
            assert(out@ =~= head + spec_joined_contacts(cs@.subrange(0, i as int + 1)));
        }
        i = i + 1;
    }
    proof {
        assert(cs@.subrange(0, cs@.len() as int) =~= cs@);
    }
    out.push(93);
    out.push(125);
    out.push(10);
    proof {
        assert(out@ =~= spec_contacts_reply(cs@));
    }
    out
}

/// Encode `{"messages":[...]}` plus newline.
pub fn messages_reply(ms: &Vec<MessageDb>) -> (r: Vec<u8>)
    requires
        forall|i: int|
            0 <= i < ms@.len() ==> (#[trigger] ms@[i]).id >= 0 && ms@[i].timestamp >= 0,
    ensures
        r@ == spec_messages_reply(ms@),
{
    let mut out: Vec<u8> = Vec::new();
    out.push(123);
    let k = kv_messages();
    push_key(&mut out, k.as_slice());
    out.push(91);
    let ghost head = out@;
    let mut i: usize = 0;
    while i < ms.len()
        invariant
            i <= ms@.len(),
            out@ == head + spec_joined_messages(ms@.subrange(0, i as int)),
            forall|q: int|
                0 <= q < ms@.len() ==> (#[trigger] ms@[q]).id >= 0 && ms@[q].timestamp >= 0,
        decreases ms@.len() - i,
    {
        proof {
            assert(ms@.subrange(0, i as int + 1).drop_last() =~= ms@.subrange(0, i as int));
            assert(ms@.subrange(0, i as int + 1).last() == ms@[i as int]);
            assert(ms@.subrange(0, 1).len() == 1);
        }
        if i > 0 {
            out.push(44);
        }
        push_message_json(&mut out, &ms[i]);
        proof {
            assert(out@ =~= head + spec_joined_messages(ms@.subrange(0, i as int + 1)));
        }
        i = i + 1;
    }
    proof {
        assert(ms@.subrange(0, ms@.len() as int) =~= ms@);
    }
    out.push(93);
    out.push(125);
    out.push(10);
    proof {
        assert(out@ =~= spec_messages_reply(ms@));
    }
    out
}

/// Encode `{"user":{...}}` plus newline.
#[verifier::rlimit(100)]
pub fn user_reply(u: &UserDb) -> (r: Vec<u8>)
    ensures
        r@ == spec_user_reply(*u),
{
    let mut out: Vec<u8> = Vec::new();
    out.push(123);
    let k = kv_user();
    push_key(&mut out, k.as_slice());
    out.push(123);
    let k = kv_onion_id();
    push_key(&mut out, k.as_slice());
    push_jstring(&mut out, u.onion_id.as_str().as_bytes());
    out.push(44);
    let k = kv_nickname();
    push_key(&mut out, k.as_slice());
    push_jstring(&mut out, u.nickname.as_str().as_bytes());
    out.push(44);
    let k = kv_public_key();
    push_key(&mut out, k.as_slice());
    push_jstring(&mut out, u.public_key.as_str().as_bytes());
    out.push(44);
    let k = kv_private_key();
    push_key(&mut out, k.as_slice());
    push_jstring(&mut out, u.private_key.as_str().as_bytes());
    out.push(125);
    out.push(125);
    out.push(10);
    proof {
        assert(out@ =~= spec_user_reply(*u));
    }
    out
}

// --- Parsing of request lines ---

/// Byte form of one string field: comma, quoted key, colon, quoted escaped
/// value.
pub open spec fn fld_bytes(name: Seq<u8>, s: Seq<u8>) -> Seq<u8> {
    seq![44u8, 34] + name + seq![34u8, 58, 34] + jescape(s) + seq![34u8]
}

/// Byte form of one optional string field, with `null` for an absent value.
pub open spec fn ofld_bytes(name: Seq<u8>, v: Option<Seq<u8>>) -> Seq<u8> {
    seq![44u8, 34] + name + seq![34u8, 58] + (match v {
        Some(s) => seq![34u8] + jescape(s) + seq![34u8],
        None => null_bytes(),
    })
}

/// A string field's canonical bytes are its raw form over the value's UTF-8.
pub proof fn lemma_fld_str_bytes(name: Seq<u8>, v: Seq<char>)
    ensures
        fld_str(name, v) == fld_bytes(name, text_bytes(v)),
{
    assert(fld_str(name, v) =~= fld_bytes(name, text_bytes(v)));
}

/// An optional field's canonical bytes, over the value's UTF-8.
pub proof fn lemma_opt_fld_bytes(name: Seq<u8>, v: Option<Seq<char>>)
    ensures
        opt_fld_str(name, v) == ofld_bytes(
            name,
            match v {
                Some(s) => Some(text_bytes(s)),
                None => None,
            },
        ),
{
    match v {
        Some(s) => {
            assert(opt_fld_str(name, v) =~= ofld_bytes(name, Some(text_bytes(s))));
        },
        None => {
            assert(opt_fld_str(name, v) =~= ofld_bytes(name, None));
        },
    }
}

/// Equal prefixes cancel on the left of a concatenation.
proof fn lemma_concat_cancel(a: Seq<u8>, b: Seq<u8>, c: Seq<u8>)
    requires
        a + b == a + c,
    ensures
        b == c,
{
    assert(b =~= (a + b).skip(a.len() as int));
    assert(c =~= (a + c).skip(a.len() as int));
}

/// One string field followed by anything reads back uniquely.
proof fn lemma_fld_tail_unique(name: Seq<u8>, s1: Seq<u8>, t1: Seq<u8>, s2: Seq<u8>, t2: Seq<u8>)
    requires
        fld_bytes(name, s1) + t1 == fld_bytes(name, s2) + t2,
    ensures
        s1 == s2,
        t1 == t2,
{
    let lit = seq![44u8, 34] + name + seq![34u8, 58, 34];
    assert(fld_bytes(name, s1) + t1 =~= lit + (jescape(s1) + seq![34u8] + t1));
    assert(fld_bytes(name, s2) + t2 =~= lit + (jescape(s2) + seq![34u8] + t2));
    lemma_concat_cancel(lit, jescape(s1) + seq![34u8] + t1, jescape(s2) + seq![34u8] + t2);
    lemma_jescape_unique(s1, t1, s2, t2);
}

/// One optional field followed by anything reads back uniquely.
proof fn lemma_ofld_tail_unique(
    name: Seq<u8>,
    v1: Option<Seq<u8>>,
    t1: Seq<u8>,
    v2: Option<Seq<u8>>,
    t2: Seq<u8>,
)
    requires
        ofld_bytes(name, v1) + t1 == ofld_bytes(name, v2) + t2,
    ensures
        v1 == v2,
        t1 == t2,
{
    let lit = seq![44u8, 34] + name + seq![34u8, 58];
    let r1 = match v1 {
        Some(s) => seq![34u8] + jescape(s) + seq![34u8],
        None => null_bytes(),
    };
    let r2 = match v2 {
        Some(s) => seq![34u8] + jescape(s) + seq![34u8],
        None => null_bytes(),
    };
    assert(ofld_bytes(name, v1) + t1 =~= lit + (r1 + t1));
    assert(ofld_bytes(name, v2) + t2 =~= lit + (r2 + t2));
    lemma_concat_cancel(lit, r1 + t1, r2 + t2);
    match (v1, v2) {
        (Some(s1), Some(s2)) => {
            assert(r1 + t1 =~= seq![34u8] + (jescape(s1) + seq![34u8] + t1));
            assert(r2 + t2 =~= seq![34u8] + (jescape(s2) + seq![34u8] + t2));
            lemma_concat_cancel(
                seq![34u8],
                jescape(s1) + seq![34u8] + t1,
                jescape(s2) + seq![34u8] + t2,
            );
            lemma_jescape_unique(s1, t1, s2, t2);
        },
        (Some(s1), None) => {
            assert((r1 + t1)[0] == 34);
            assert((r2 + t2)[0] == 110);
            assert(false);
        },
        (None, Some(s2)) => {
            assert((r1 + t1)[0] == 110);
            assert((r2 + t2)[0] == 34);
            assert(false);
        },
        (None, None) => {
            lemma_concat_cancel(null_bytes(), t1, t2);
        },
    }
}

/// One boolean field followed by anything reads back uniquely.
proof fn lemma_bfld_tail_unique(name: Seq<u8>, b1: bool, t1: Seq<u8>, b2: bool, t2: Seq<u8>)
    requires
        fld_bool(name, b1) + t1 == fld_bool(name, b2) + t2,
    ensures
        b1 == b2,
        t1 == t2,
{
    let lit = seq![44u8, 34] + name + seq![34u8, 58];
    assert(fld_bool(name, b1) + t1 =~= lit + (bool_bytes(b1) + t1));
    assert(fld_bool(name, b2) + t2 =~= lit + (bool_bytes(b2) + t2));
    lemma_concat_cancel(lit, bool_bytes(b1) + t1, bool_bytes(b2) + t2);
    if b1 != b2 {
        assert((bool_bytes(b1) + t1)[0] == if b1 { 116u8 } else { 102u8 });
        assert((bool_bytes(b2) + t2)[0] == if b2 { 116u8 } else { 102u8 });
        assert(false);
    }
    lemma_concat_cancel(bool_bytes(b1), t1, t2);
}

/// Compare two byte slices for equality.
fn bytes_eq(a: &[u8], b: &[u8]) -> (r: bool)
    ensures
        r == (a@ == b@),
{
    if a.len() != b.len() {
        return false;
    }
    let mut i: usize = 0;
    while i < a.len()
        invariant
            i <= a@.len(),
            a@.len() == b@.len(),
            forall|m: int| 0 <= m < i ==> a@[m] == b@[m],
        decreases a@.len() - i,
    {
        if a[i] != b[i] {
            return false;
        }
        i = i + 1;
    }
    proof {
        assert(a@ =~= b@);
    }
    true
}

/// Read one string field with this key at `pos`; succeeds exactly when one
/// stands there.
fn parse_field_str(data: &Vec<u8>, pos: usize, name: &[u8]) -> (r: Option<(Vec<u8>, usize)>)
    requires
        pos <= data@.len(),
    ensures
        match r {
            Some(p) => pos <= p.1 <= data@.len() && data@.subrange(pos as int, p.1 as int)
                == fld_bytes(name@, p.0@),
            None => forall|s: Seq<u8>, j: int|
                !(pos <= j <= data@.len() && data@.subrange(pos as int, j) == fld_bytes(name@, s)),
        },
{
    let mut lit: Vec<u8> = vec![44u8, 34];
    push_all(&mut lit, name);
    lit.push(34);
    lit.push(58);
    lit.push(34);
    proof {
        assert(lit@ =~= seq![44u8, 34] + name@ + seq![34u8, 58, 34]);
    }
    let p2 = match match_lit(data, pos, lit.as_slice()) {
        Some(p) => p,
        None => {
            proof {
                assert forall|s: Seq<u8>, j: int|
                    !(pos <= j <= data@.len() && data@.subrange(pos as int, j) == fld_bytes(
                        name@,
                        s,
                    )) by {
                    if pos <= j <= data@.len() && data@.subrange(pos as int, j) == fld_bytes(
                        name@,
                        s,
                    ) {
                        assert(fld_bytes(name@, s).len() == lit@.len() + jescape(s).len() + 1);
                        assert(data@.subrange(pos as int, pos + lit@.len()) =~= data@.subrange(
                            pos as int,
                            j,
                        ).subrange(0, lit@.len() as int));
                        assert(fld_bytes(name@, s).subrange(0, lit@.len() as int) =~= lit@);
                    }
                }
            }
            return None;
        },
    };
    match parse_jstring(data, p2) {
        Some((s, j)) => {
            proof {
                assert(data@.subrange(pos as int, j as int) =~= data@.subrange(pos as int, p2 as int)
                    + data@.subrange(p2 as int, j as int));
                assert(data@.subrange(pos as int, j as int) =~= lit@ + (jescape(s@) + seq![34u8]));
                assert(data@.subrange(pos as int, j as int) =~= fld_bytes(name@, s@));
            }
            Some((s, j))
        },
        None => {
            proof {
                assert forall|s: Seq<u8>, j: int|
                    !(pos <= j <= data@.len() && data@.subrange(pos as int, j) == fld_bytes(
                        name@,
                        s,
                    )) by {
                    if pos <= j <= data@.len() && data@.subrange(pos as int, j) == fld_bytes(
                        name@,
                        s,
                    ) {
                        assert(fld_bytes(name@, s).len() == lit@.len() + jescape(s).len() + 1);
                        assert(data@.subrange(p2 as int, j) =~= data@.subrange(pos as int, j).skip(
                            lit@.len() as int,
                        ));
                        assert(data@.subrange(p2 as int, j) =~= jescape(s) + seq![34u8]);
                        assert(jstring_at(data@, p2 as int, s, j));
                    }
                }
            }
            None
        },
    }
}

/// Read one optional string field with this key at `pos`: a quoted value or
/// `null`. Succeeds exactly when one stands there.
fn parse_field_opt(data: &Vec<u8>, pos: usize, name: &[u8]) -> (r: Option<
    (Option<Vec<u8>>, usize),
>)
    requires
        pos <= data@.len(),
    ensures
        match r {
            Some(p) => pos <= p.1 <= data@.len() && data@.subrange(pos as int, p.1 as int)
                == ofld_bytes(
                name@,
                match p.0 {
                    Some(s) => Some(s@),
                    None => None,
                },
            ),
            None => forall|v: Option<Seq<u8>>, j: int|
                !(pos <= j <= data@.len() && data@.subrange(pos as int, j) == ofld_bytes(name@, v)),
        },
{
    let mut lit: Vec<u8> = vec![44u8, 34];
    push_all(&mut lit, name);
    lit.push(34);
    lit.push(58);
    proof {
        assert(lit@ =~= seq![44u8, 34] + name@ + seq![34u8, 58]);
    }
    let p2 = match match_lit(data, pos, lit.as_slice()) {
        Some(p) => p,
        None => {
            proof {
                assert forall|v: Option<Seq<u8>>, j: int|
                    !(pos <= j <= data@.len() && data@.subrange(pos as int, j) == ofld_bytes(
                        name@,
                        v,
                    )) by {
                    if pos <= j <= data@.len() && data@.subrange(pos as int, j) == ofld_bytes(
                        name@,
                        v,
                    ) {
                        assert(ofld_bytes(name@, v).len() >= lit@.len() + 2);
                        assert(data@.subrange(pos as int, pos + lit@.len()) =~= data@.subrange(
                            pos as int,
                            j,
                        ).subrange(0, lit@.len() as int));
                        assert(ofld_bytes(name@, v).subrange(0, lit@.len() as int) =~= lit@);
                    }
                }
            }
            return None;
        },
    };
    if p2 < data.len() && data[p2] == 34 {
        match parse_jstring(data, p2 + 1) {
            Some((s, j)) => {
                proof {
                    assert(data@.subrange(pos as int, j as int) =~= data@.subrange(
                        pos as int,
                        p2 as int,
                    ) + data@.subrange(p2 as int, j as int));
                    assert(data@.subrange(p2 as int, j as int) =~= seq![34u8] + data@.subrange(
                        p2 as int + 1,
                        j as int,
                    ));
                    assert(data@.subrange(pos as int, j as int) =~= lit@ + (seq![34u8] + jescape(s@)
                        + seq![34u8]));
                    assert(data@.subrange(pos as int, j as int) =~= ofld_bytes(name@, Some(s@)));
                }
                Some((Some(s), j))
            },
            None => {
                proof {
                    assert forall|v: Option<Seq<u8>>, j: int|
                        !(pos <= j <= data@.len() && data@.subrange(pos as int, j) == ofld_bytes(
                            name@,
                            v,
                        )) by {
                        if pos <= j <= data@.len() && data@.subrange(pos as int, j) == ofld_bytes(
                            name@,
                            v,
                        ) {
                            match v {
                                Some(s) => {
                                    assert(ofld_bytes(name@, v).len() == lit@.len() + jescape(
                                        s,
                                    ).len() + 2);
                                    assert(data@.subrange(p2 as int + 1, j) =~= data@.subrange(
                                        pos as int,
                                        j,
                                    ).skip(lit@.len() as int + 1));
                                    assert(data@.subrange(p2 as int + 1, j) =~= jescape(s) + seq![
                                        34u8,
                                    ]);
                                    assert(jstring_at(data@, p2 as int + 1, s, j));
                                },
                                None => {
                                    assert(ofld_bytes(name@, v).len() == lit@.len() + 4);
                                    assert(data@[p2 as int] == data@.subrange(pos as int, j)[lit@.len() as int]);
                                    assert(ofld_bytes(name@, v)[lit@.len() as int] == 110);
                                },
                            }
                        }
                    }
                }
                None
            },
        }
    } else {
        let nul: Vec<u8> = vec![110u8, 117, 108, 108];
        proof {
            assert(nul@ =~= null_bytes());
        }
        match match_lit(data, p2, nul.as_slice()) {
            Some(j) => {
                proof {
                    assert(data@.subrange(pos as int, j as int) =~= data@.subrange(
                        pos as int,
                        p2 as int,
                    ) + data@.subrange(p2 as int, j as int));
                    assert(data@.subrange(pos as int, j as int) =~= lit@ + null_bytes());
                    assert(data@.subrange(pos as int, j as int) =~= ofld_bytes(
                        name@,
                        None::<Seq<u8>>,
                    ));
                }
                Some((None, j))
            },
            None => {
                proof {
                    assert forall|v: Option<Seq<u8>>, j: int|
                        !(pos <= j <= data@.len() && data@.subrange(pos as int, j) == ofld_bytes(
                            name@,
                            v,
                        )) by {
                        if pos <= j <= data@.len() && data@.subrange(pos as int, j) == ofld_bytes(
                            name@,
                            v,
                        ) {
                            match v {
                                Some(s) => {
                                    assert(ofld_bytes(name@, v).len() == lit@.len() + jescape(
                                        s,
                                    ).len() + 2);
                                    assert(data@[p2 as int] == data@.subrange(pos as int, j)[lit@.len() as int]);
                                    assert(ofld_bytes(name@, v)[lit@.len() as int] == 34);
                                    assert(p2 < data@.len());
                                },
                                None => {
                                    assert(ofld_bytes(name@, v).len() == lit@.len() + 4);
                                    assert(j == pos + lit@.len() + 4);
                                    assert(data@.subrange(p2 as int, j) =~= data@.subrange(
                                        pos as int,
                                        j,
                                    ).skip(lit@.len() as int));
                                    assert(data@.subrange(p2 as int, j) =~= null_bytes());
                                },
                            }
                        }
                    }
                }
                None
            },
        }
    }
}

/// Read one boolean field with this key at `pos`; succeeds exactly when one
/// stands there.
fn parse_field_bool(data: &Vec<u8>, pos: usize, name: &[u8]) -> (r: Option<(bool, usize)>)
    requires
        pos <= data@.len(),
    ensures
        match r {
            Some(p) => pos <= p.1 <= data@.len() && data@.subrange(pos as int, p.1 as int)
                == fld_bool(name@, p.0),
            None => forall|b: bool, j: int|
                !(pos <= j <= data@.len() && data@.subrange(pos as int, j) == fld_bool(name@, b)),
        },
{
    let mut lit: Vec<u8> = vec![44u8, 34];
    push_all(&mut lit, name);
    lit.push(34);
    lit.push(58);
    proof {
        assert(lit@ =~= seq![44u8, 34] + name@ + seq![34u8, 58]);
    }
    let p2 = match match_lit(data, pos, lit.as_slice()) {
        Some(p) => p,
        None => {
            proof {
                assert forall|b: bool, j: int|
                    !(pos <= j <= data@.len() && data@.subrange(pos as int, j) == fld_bool(
                        name@,
                        b,
                    )) by {
                    if pos <= j <= data@.len() && data@.subrange(pos as int, j) == fld_bool(
                        name@,
                        b,
                    ) {
                        assert(fld_bool(name@, b).len() >= lit@.len() + 4);
                        assert(data@.subrange(pos as int, pos + lit@.len()) =~= data@.subrange(
                            pos as int,
                            j,
                        ).subrange(0, lit@.len() as int));
                        assert(fld_bool(name@, b).subrange(0, lit@.len() as int) =~= lit@);
                    }
                }
            }
            return None;
        },
    };
    let tlit: Vec<u8> = vec![116u8, 114, 117, 101];
    let flit: Vec<u8> = vec![102u8, 97, 108, 115, 101];
    proof {
        assert(tlit@ =~= bool_bytes(true));
        assert(flit@ =~= bool_bytes(false));
    }
    if let Some(j) = match_lit(data, p2, tlit.as_slice()) {
        proof {
            assert(data@.subrange(pos as int, j as int) =~= data@.subrange(pos as int, p2 as int)
                + data@.subrange(p2 as int, j as int));
            assert(data@.subrange(pos as int, j as int) =~= lit@ + bool_bytes(true));
            assert(data@.subrange(pos as int, j as int) =~= fld_bool(name@, true));
        }
        return Some((true, j));
    }
    if let Some(j) = match_lit(data, p2, flit.as_slice()) {
        proof {
            assert(data@.subrange(pos as int, j as int) =~= data@.subrange(pos as int, p2 as int)
                + data@.subrange(p2 as int, j as int));
            assert(data@.subrange(pos as int, j as int) =~= lit@ + bool_bytes(false));
            assert(data@.subrange(pos as int, j as int) =~= fld_bool(name@, false));
        }
        return Some((false, j));
    }
    proof {
        assert forall|b: bool, j: int|
            !(pos <= j <= data@.len() && data@.subrange(pos as int, j) == fld_bool(name@, b)) by {
            if pos <= j <= data@.len() && data@.subrange(pos as int, j) == fld_bool(name@, b) {
                let bb = bool_bytes(b);
                assert(fld_bool(name@, b).len() == lit@.len() + bb.len());
                assert(j == pos + lit@.len() + bb.len());
                assert(data@.subrange(p2 as int, j) =~= data@.subrange(pos as int, j).skip(
                    lit@.len() as int,
                ));
                assert(data@.subrange(p2 as int, j) =~= bb);
            }
        }
    }
    None
}

/// True exactly when the data from `pos` on is the single closing brace.
fn parse_tail_close(data: &Vec<u8>, pos: usize) -> (r: bool)
    requires
        pos <= data@.len(),
    ensures
        r == (data@.subrange(pos as int, data@.len() as int) == seq![125u8]),
{
    let ok = pos < data.len() && data[pos] == 125 && pos + 1 == data.len();
    proof {
        if ok {
            assert(data@.subrange(pos as int, data@.len() as int) =~= seq![125u8]);
        } else {
            if data@.subrange(pos as int, data@.len() as int) == seq![125u8] {
                assert(data@.subrange(pos as int, data@.len() as int).len() == data@.len() - pos);
                assert(data@.len() - pos == 1);
                assert(data@[pos as int] == data@.subrange(pos as int, data@.len() as int)[0]);
            }
        }
    }
    ok
}

// --- Whole command tails, by shape ---

/// Tail of a one-string-field command.
pub open spec fn tail1(k: Seq<u8>, s: Seq<u8>) -> Seq<u8> {
    fld_bytes(k, s) + seq![125u8]
}

/// Tail of a two-string-field command.
pub open spec fn tail2(k1: Seq<u8>, s1: Seq<u8>, k2: Seq<u8>, s2: Seq<u8>) -> Seq<u8> {
    fld_bytes(k1, s1) + fld_bytes(k2, s2) + seq![125u8]
}

/// Tail of a three-string-field command.
pub open spec fn tail3(
    k1: Seq<u8>,
    s1: Seq<u8>,
    k2: Seq<u8>,
    s2: Seq<u8>,
    k3: Seq<u8>,
    s3: Seq<u8>,
) -> Seq<u8> {
    fld_bytes(k1, s1) + fld_bytes(k2, s2) + fld_bytes(k3, s3) + seq![125u8]
}

/// Tail of a one-boolean-field command.
pub open spec fn tail_b(k: Seq<u8>, b: bool) -> Seq<u8> {
    fld_bool(k, b) + seq![125u8]
}

/// Tail of a command with one string field and two optional fields.
pub open spec fn tail_1s2o(
    k1: Seq<u8>,
    s1: Seq<u8>,
    k2: Seq<u8>,
    v2: Option<Seq<u8>>,
    k3: Seq<u8>,
    v3: Option<Seq<u8>>,
) -> Seq<u8> {
    fld_bytes(k1, s1) + ofld_bytes(k2, v2) + ofld_bytes(k3, v3) + seq![125u8]
}

/// Tail of a command with two optional fields.
pub open spec fn tail_2o(k1: Seq<u8>, v1: Option<Seq<u8>>, k2: Seq<u8>, v2: Option<Seq<u8>>) -> Seq<
    u8,
> {
    ofld_bytes(k1, v1) + ofld_bytes(k2, v2) + seq![125u8]
}

/// Read a one-string-field tail; succeeds exactly when the whole rest of the
/// data is such a tail.
#[verifier::rlimit(100)]
#[verifier::spinoff_prover]
fn parse_tail_1str(data: &Vec<u8>, pos: usize, k1: &[u8]) -> (r: Option<Vec<u8>>)
    requires
        pos <= data@.len(),
    ensures
        match r {
            Some(s) => data@.subrange(pos as int, data@.len() as int) == tail1(k1@, s@),
            None => forall|s: Seq<u8>|
                data@.subrange(pos as int, data@.len() as int) != tail1(k1@, s),
        },
{
    let ghost suffix = data@.subrange(pos as int, data@.len() as int);
    let (s, j) = match parse_field_str(data, pos, k1) {
        Some(p) => p,
        None => {
            proof {
                assert forall|s: Seq<u8>| suffix != tail1(k1@, s) by {
                    if suffix == tail1(k1@, s) {
                        let j0 = pos + fld_bytes(k1@, s).len();
                        assert(suffix.len() == fld_bytes(k1@, s).len() + 1);
                        assert(suffix.subrange(0, fld_bytes(k1@, s).len() as int) =~= fld_bytes(
                            k1@,
                            s,
                        ));
                        assert(data@.subrange(pos as int, j0 as int) =~= suffix.subrange(
                            0,
                            fld_bytes(k1@, s).len() as int,
                        ));
                    }
                }
            }
            return None;
        },
    };
    if parse_tail_close(data, j) {
        proof {
            assert(suffix =~= data@.subrange(pos as int, j as int) + data@.subrange(
                j as int,
                data@.len() as int,
            ));
            assert(suffix =~= tail1(k1@, s@));
        }
        Some(s)
    } else {
        proof {
            assert forall|s2: Seq<u8>| suffix != tail1(k1@, s2) by {
                if suffix == tail1(k1@, s2) {
                    assert(suffix =~= fld_bytes(k1@, s@) + data@.subrange(
                        j as int,
                        data@.len() as int,
                    ));
                    lemma_fld_tail_unique(
                        k1@,
                        s@,
                        data@.subrange(j as int, data@.len() as int),
                        s2,
                        seq![125u8],
                    );
                }
            }
        }
        None
    }
}

/// Read a two-string-field tail.
#[verifier::rlimit(100)]
#[verifier::spinoff_prover]
fn parse_tail_2str(data: &Vec<u8>, pos: usize, k1: &[u8], k2: &[u8]) -> (r: Option<
    (Vec<u8>, Vec<u8>),
>)
    requires
        pos <= data@.len(),
    ensures
        match r {
            Some(p) => data@.subrange(pos as int, data@.len() as int) == tail2(k1@, p.0@, k2@, p.1@),
            None => forall|s1: Seq<u8>, s2: Seq<u8>|
                data@.subrange(pos as int, data@.len() as int) != tail2(k1@, s1, k2@, s2),
        },
{
    let ghost suffix = data@.subrange(pos as int, data@.len() as int);
    let (a, j) = match parse_field_str(data, pos, k1) {
        Some(p) => p,
        None => {
            proof {
                assert forall|s1: Seq<u8>, s2: Seq<u8>| suffix != tail2(k1@, s1, k2@, s2) by {
                    if suffix == tail2(k1@, s1, k2@, s2) {
                        let j0 = pos + fld_bytes(k1@, s1).len();
                        assert(suffix.len() == fld_bytes(k1@, s1).len() + fld_bytes(
                            k2@,
                            s2,
                        ).len() + 1);
                        assert(suffix.subrange(0, fld_bytes(k1@, s1).len() as int) =~= fld_bytes(
                            k1@,
                            s1,
                        ));
                        assert(data@.subrange(pos as int, j0 as int) =~= suffix.subrange(
                            0,
                            fld_bytes(k1@, s1).len() as int,
                        ));
                    }
                }
            }
            return None;
        },
    };
    proof {
        assert forall|s1: Seq<u8>, s2: Seq<u8>|
            suffix == tail2(k1@, s1, k2@, s2) implies s1 == a@ && data@.subrange(
            j as int,
            data@.len() as int,
        ) == fld_bytes(k2@, s2) + seq![125u8] by {
            assert(suffix =~= fld_bytes(k1@, a@) + data@.subrange(j as int, data@.len() as int));
            assert(tail2(k1@, s1, k2@, s2) =~= fld_bytes(k1@, s1) + (fld_bytes(k2@, s2) + seq![
                125u8,
            ]));
            lemma_fld_tail_unique(
                k1@,
                a@,
                data@.subrange(j as int, data@.len() as int),
                s1,
                fld_bytes(k2@, s2) + seq![125u8],
            );
        }
    }
    let (b, j2) = match parse_field_str(data, j, k2) {
        Some(p) => p,
        None => {
            proof {
                assert forall|s1: Seq<u8>, s2: Seq<u8>| suffix != tail2(k1@, s1, k2@, s2) by {
                    if suffix == tail2(k1@, s1, k2@, s2) {
                        let j0 = j + fld_bytes(k2@, s2).len();
                        assert(data@.subrange(j as int, j0 as int) =~= (fld_bytes(k2@, s2) + seq![
                            125u8,
                        ]).subrange(0, fld_bytes(k2@, s2).len() as int));
                        assert(data@.subrange(j as int, j0 as int) =~= fld_bytes(k2@, s2));
                    }
                }
            }
            return None;
        },
    };
    if parse_tail_close(data, j2) {
        proof {
            assert(suffix =~= data@.subrange(pos as int, j as int) + data@.subrange(
                j as int,
                j2 as int,
            ) + data@.subrange(j2 as int, data@.len() as int));
            assert(suffix =~= tail2(k1@, a@, k2@, b@));
        }
        Some((a, b))
    } else {
        proof {
            assert forall|s1: Seq<u8>, s2: Seq<u8>| suffix != tail2(k1@, s1, k2@, s2) by {
                if suffix == tail2(k1@, s1, k2@, s2) {
                    assert(data@.subrange(j as int, data@.len() as int) =~= fld_bytes(k2@, b@)
                        + data@.subrange(j2 as int, data@.len() as int));
                    lemma_fld_tail_unique(
                        k2@,
                        b@,
                        data@.subrange(j2 as int, data@.len() as int),
                        s2,
                        seq![125u8],
                    );
                }
            }
        }
        None
    }
}

/// Read a three-string-field tail.
#[verifier::rlimit(100)]
#[verifier::spinoff_prover]
fn parse_tail_3str(data: &Vec<u8>, pos: usize, k1: &[u8], k2: &[u8], k3: &[u8]) -> (r: Option<
    (Vec<u8>, Vec<u8>, Vec<u8>),
>)
    requires
        pos <= data@.len(),
    ensures
        match r {
            Some(p) => data@.subrange(pos as int, data@.len() as int) == tail3(
                k1@,
                p.0@,
                k2@,
                p.1@,
                k3@,
                p.2@,
            ),
            None => forall|s1: Seq<u8>, s2: Seq<u8>, s3: Seq<u8>|
                data@.subrange(pos as int, data@.len() as int) != tail3(k1@, s1, k2@, s2, k3@, s3),
        },
{
    let ghost suffix = data@.subrange(pos as int, data@.len() as int);
    let (a, j) = match parse_field_str(data, pos, k1) {
        Some(p) => p,
        None => {
            proof {
                assert forall|s1: Seq<u8>, s2: Seq<u8>, s3: Seq<u8>|
                    suffix != tail3(k1@, s1, k2@, s2, k3@, s3) by {
                    if suffix == tail3(k1@, s1, k2@, s2, k3@, s3) {
                        let j0 = pos + fld_bytes(k1@, s1).len();
                        assert(suffix.len() == fld_bytes(k1@, s1).len() + fld_bytes(
                            k2@,
                            s2,
                        ).len() + fld_bytes(k3@, s3).len() + 1);
                        assert(suffix.subrange(0, fld_bytes(k1@, s1).len() as int) =~= fld_bytes(
                            k1@,
                            s1,
                        ));
                        assert(data@.subrange(pos as int, j0 as int) =~= suffix.subrange(
                            0,
                            fld_bytes(k1@, s1).len() as int,
                        ));
                    }
                }
            }
            return None;
        },
    };
    proof {
        assert forall|s1: Seq<u8>, s2: Seq<u8>, s3: Seq<u8>|
            suffix == tail3(k1@, s1, k2@, s2, k3@, s3) implies s1 == a@ && data@.subrange(
            j as int,
            data@.len() as int,
        ) == tail2(k2@, s2, k3@, s3) by {
            assert(suffix =~= fld_bytes(k1@, a@) + data@.subrange(j as int, data@.len() as int));
            assert(tail3(k1@, s1, k2@, s2, k3@, s3) =~= fld_bytes(k1@, s1) + tail2(
                k2@,
                s2,
                k3@,
                s3,
            ));
            lemma_fld_tail_unique(
                k1@,
                a@,
                data@.subrange(j as int, data@.len() as int),
                s1,
                tail2(k2@, s2, k3@, s3),
            );
        }
    }
    match parse_tail_2str(data, j, k2, k3) {
        Some((b, c)) => {
            proof {
                assert(suffix =~= data@.subrange(pos as int, j as int) + data@.subrange(
                    j as int,
                    data@.len() as int,
                ));
                assert(suffix =~= tail3(k1@, a@, k2@, b@, k3@, c@));
            }
            Some((a, b, c))
        },
        None => {
            proof {
                assert forall|s1: Seq<u8>, s2: Seq<u8>, s3: Seq<u8>|
                    suffix != tail3(k1@, s1, k2@, s2, k3@, s3) by {}
            }
            None
        },
    }
}

/// Read a one-boolean-field tail.
#[verifier::rlimit(100)]
#[verifier::spinoff_prover]
fn parse_tail_1bool(data: &Vec<u8>, pos: usize, k1: &[u8]) -> (r: Option<bool>)
    requires
        pos <= data@.len(),
    ensures
        match r {
            Some(b) => data@.subrange(pos as int, data@.len() as int) == tail_b(k1@, b),
            None => forall|b: bool| data@.subrange(pos as int, data@.len() as int) != tail_b(k1@, b),
        },
{
    let ghost suffix = data@.subrange(pos as int, data@.len() as int);
    let (b, j) = match parse_field_bool(data, pos, k1) {
        Some(p) => p,
        None => {
            proof {
                assert forall|b: bool| suffix != tail_b(k1@, b) by {
                    if suffix == tail_b(k1@, b) {
                        let j0 = pos + fld_bool(k1@, b).len();
                        assert(suffix.len() == fld_bool(k1@, b).len() + 1);
                        assert(suffix.subrange(0, fld_bool(k1@, b).len() as int) =~= fld_bool(
                            k1@,
                            b,
                        ));
                        assert(data@.subrange(pos as int, j0 as int) =~= suffix.subrange(
                            0,
                            fld_bool(k1@, b).len() as int,
                        ));
                    }
                }
            }
            return None;
        },
    };
    if parse_tail_close(data, j) {
        proof {
            assert(suffix =~= data@.subrange(pos as int, j as int) + data@.subrange(
                j as int,
                data@.len() as int,
            ));
            assert(suffix =~= tail_b(k1@, b));
        }
        Some(b)
    } else {
        proof {
            assert forall|b2: bool| suffix != tail_b(k1@, b2) by {
                if suffix == tail_b(k1@, b2) {
                    assert(suffix =~= fld_bool(k1@, b) + data@.subrange(
                        j as int,
                        data@.len() as int,
                    ));
                    lemma_bfld_tail_unique(
                        k1@,
                        b,
                        data@.subrange(j as int, data@.len() as int),
                        b2,
                        seq![125u8],
                    );
                }
            }
        }
        None
    }
}

/// Read a two-optional-field tail.
#[verifier::rlimit(100)]
#[verifier::spinoff_prover]
fn parse_tail_2opt(data: &Vec<u8>, pos: usize, k1: &[u8], k2: &[u8]) -> (r: Option<
    (Option<Vec<u8>>, Option<Vec<u8>>),
>)
    requires
        pos <= data@.len(),
    ensures
        match r {
            Some(p) => data@.subrange(pos as int, data@.len() as int) == tail_2o(
                k1@,
                match p.0 {
                    Some(s) => Some(s@),
                    None => None,
                },
                k2@,
                match p.1 {
                    Some(s) => Some(s@),
                    None => None,
                },
            ),
            None => forall|v1: Option<Seq<u8>>, v2: Option<Seq<u8>>|
                data@.subrange(pos as int, data@.len() as int) != tail_2o(k1@, v1, k2@, v2),
        },
{
    let ghost suffix = data@.subrange(pos as int, data@.len() as int);
    let (a, j) = match parse_field_opt(data, pos, k1) {
        Some(p) => p,
        None => {
            proof {
                assert forall|v1: Option<Seq<u8>>, v2: Option<Seq<u8>>|
                    suffix != tail_2o(k1@, v1, k2@, v2) by {
                    if suffix == tail_2o(k1@, v1, k2@, v2) {
                        let j0 = pos + ofld_bytes(k1@, v1).len();
                        assert(suffix.len() == ofld_bytes(k1@, v1).len() + ofld_bytes(
                            k2@,
                            v2,
                        ).len() + 1);
                        assert(suffix.subrange(0, ofld_bytes(k1@, v1).len() as int) =~= ofld_bytes(
                            k1@,
                            v1,
                        ));
                        assert(data@.subrange(pos as int, j0 as int) =~= suffix.subrange(
                            0,
                            ofld_bytes(k1@, v1).len() as int,
                        ));
                    }
                }
            }
            return None;
        },
    };
    let ghost av = match &a {
        Some(s) => Some(s@),
        None => None::<Seq<u8>>,
    };
    proof {
        assert forall|v1: Option<Seq<u8>>, v2: Option<Seq<u8>>|
            suffix == tail_2o(k1@, v1, k2@, v2) implies v1 == av && data@.subrange(
            j as int,
            data@.len() as int,
        ) == ofld_bytes(k2@, v2) + seq![125u8] by {
            assert(suffix =~= ofld_bytes(k1@, av) + data@.subrange(j as int, data@.len() as int));
            assert(tail_2o(k1@, v1, k2@, v2) =~= ofld_bytes(k1@, v1) + (ofld_bytes(k2@, v2) + seq![
                125u8,
            ]));
            lemma_ofld_tail_unique(
                k1@,
                av,
                data@.subrange(j as int, data@.len() as int),
                v1,
                ofld_bytes(k2@, v2) + seq![125u8],
            );
        }
    }
    let (b, j2) = match parse_field_opt(data, j, k2) {
        Some(p) => p,
        None => {
            proof {
                assert forall|v1: Option<Seq<u8>>, v2: Option<Seq<u8>>|
                    suffix != tail_2o(k1@, v1, k2@, v2) by {
                    if suffix == tail_2o(k1@, v1, k2@, v2) {
                        let j0 = j + ofld_bytes(k2@, v2).len();
                        assert(data@.subrange(j as int, j0 as int) =~= (ofld_bytes(k2@, v2) + seq![
                            125u8,
                        ]).subrange(0, ofld_bytes(k2@, v2).len() as int));
                        assert(data@.subrange(j as int, j0 as int) =~= ofld_bytes(k2@, v2));
                    }
                }
            }
            return None;
        },
    };
    let ghost bv = match &b {
        Some(s) => Some(s@),
        None => None::<Seq<u8>>,
    };
    if parse_tail_close(data, j2) {
        proof {
            assert(suffix =~= data@.subrange(pos as int, j as int) + data@.subrange(
                j as int,
                j2 as int,
            ) + data@.subrange(j2 as int, data@.len() as int));
            assert(suffix =~= tail_2o(k1@, av, k2@, bv));
        }
        Some((a, b))
    } else {
        proof {
            assert forall|v1: Option<Seq<u8>>, v2: Option<Seq<u8>>|
                suffix != tail_2o(k1@, v1, k2@, v2) by {
                if suffix == tail_2o(k1@, v1, k2@, v2) {
                    assert(data@.subrange(j as int, data@.len() as int) =~= ofld_bytes(k2@, bv)
                        + data@.subrange(j2 as int, data@.len() as int));
                    lemma_ofld_tail_unique(
                        k2@,
                        bv,
                        data@.subrange(j2 as int, data@.len() as int),
                        v2,
                        seq![125u8],
                    );
                }
            }
        }
        None
    }
}

/// Read a tail of one string field followed by two optional fields.
fn parse_tail_1str2opt(data: &Vec<u8>, pos: usize, k1: &[u8], k2: &[u8], k3: &[u8]) -> (r: Option<
    (Vec<u8>, Option<Vec<u8>>, Option<Vec<u8>>),
>)
    requires
        pos <= data@.len(),
    ensures
        match r {
            Some(p) => data@.subrange(pos as int, data@.len() as int) == tail_1s2o(
                k1@,
                p.0@,
                k2@,
                match p.1 {
                    Some(s) => Some(s@),
                    None => None,
                },
                k3@,
                match p.2 {
                    Some(s) => Some(s@),
                    None => None,
                },
            ),
            None => forall|s1: Seq<u8>, v2: Option<Seq<u8>>, v3: Option<Seq<u8>>|
                data@.subrange(pos as int, data@.len() as int) != tail_1s2o(
                    k1@,
                    s1,
                    k2@,
                    v2,
                    k3@,
                    v3,
                ),
        },
{
    let ghost suffix = data@.subrange(pos as int, data@.len() as int);
    let (a, j) = match parse_field_str(data, pos, k1) {
        Some(p) => p,
        None => {
            proof {
                assert forall|s1: Seq<u8>, v2: Option<Seq<u8>>, v3: Option<Seq<u8>>|
                    suffix != tail_1s2o(k1@, s1, k2@, v2, k3@, v3) by {
                    if suffix == tail_1s2o(k1@, s1, k2@, v2, k3@, v3) {
                        let j0 = pos + fld_bytes(k1@, s1).len();
                        assert(suffix.len() == fld_bytes(k1@, s1).len() + ofld_bytes(
                            k2@,
                            v2,
                        ).len() + ofld_bytes(k3@, v3).len() + 1);
                        assert(suffix.subrange(0, fld_bytes(k1@, s1).len() as int) =~= fld_bytes(
                            k1@,
                            s1,
                        ));
                        assert(data@.subrange(pos as int, j0 as int) =~= suffix.subrange(
                            0,
                            fld_bytes(k1@, s1).len() as int,
                        ));
                    }
                }
            }
            return None;
        },
    };
    proof {
        assert forall|s1: Seq<u8>, v2: Option<Seq<u8>>, v3: Option<Seq<u8>>|
            suffix == tail_1s2o(k1@, s1, k2@, v2, k3@, v3) implies s1 == a@ && data@.subrange(
            j as int,
            data@.len() as int,
        ) == tail_2o(k2@, v2, k3@, v3) by {
            assert(suffix =~= fld_bytes(k1@, a@) + data@.subrange(j as int, data@.len() as int));
            assert(tail_1s2o(k1@, s1, k2@, v2, k3@, v3) =~= fld_bytes(k1@, s1) + tail_2o(
                k2@,
                v2,
                k3@,
                v3,
            ));
            lemma_fld_tail_unique(
                k1@,
                a@,
                data@.subrange(j as int, data@.len() as int),
                s1,
                tail_2o(k2@, v2, k3@, v3),
            );
        }
    }
    match parse_tail_2opt(data, j, k2, k3) {
        Some((b, c)) => {
            proof {
                let bv = match &b {
                    Some(s) => Some(s@),
                    None => None::<Seq<u8>>,
                };
                let cv = match &c {
                    Some(s) => Some(s@),
                    None => None::<Seq<u8>>,
                };
                assert(suffix =~= data@.subrange(pos as int, j as int) + data@.subrange(
                    j as int,
                    data@.len() as int,
                ));
                assert(suffix =~= tail_1s2o(k1@, a@, k2@, bv, k3@, cv));
            }
            Some((a, b, c))
        },
        None => {
            proof {
                assert forall|s1: Seq<u8>, v2: Option<Seq<u8>>, v3: Option<Seq<u8>>|
                    suffix != tail_1s2o(k1@, s1, k2@, v2, k3@, v3) by {}
            }
            None
        },
    }
}


/// Two JSON strings starting at the same index of the same data are the
/// same string with the same end.
proof fn lemma_two_jstrings_align(
    data: Seq<u8>,
    start: int,
    s1: Seq<u8>,
    j1: int,
    s2: Seq<u8>,
    j2: int,
)
    requires
        0 <= start,
        jstring_at(data, start, s1, j1),
        jstring_at(data, start, s2, j2),
    ensures
        s1 == s2,
        j1 == j2,
{
    let t1 = data.subrange(j1, data.len() as int);
    let t2 = data.subrange(j2, data.len() as int);
    assert(data.subrange(start, data.len() as int) =~= data.subrange(start, j1) + t1);
    assert(data.subrange(start, data.len() as int) =~= data.subrange(start, j2) + t2);
    assert(jescape(s1) + seq![34u8] + t1 =~= data.subrange(start, data.len() as int));
    assert(jescape(s2) + seq![34u8] + t2 =~= data.subrange(start, data.len() as int));
    lemma_jescape_unique(s1, t1, s2, t2);
}

/// The seven command tags that share a length with another tag differ in
/// content; every other pair differs in length already.
proof fn lemma_cmd_tags_distinct()
    ensures
        cmd_loadchat() != cmd_loaduser(),
        cmd_getconfigvalue() != cmd_setconfigvalue(),
        cmd_deletecontact() != cmd_updatecontact(),
        cmd_addcontact() != cmd_updateuser(),
        cmd_sendappfocusstate() != cmd_pinghiddenservice(),
        cmd_deleteallcontacts() != cmd_sendappfocusstate(),
        cmd_deleteallcontacts() != cmd_pinghiddenservice(),
{
    assert(cmd_loadchat()[4] != cmd_loaduser()[4]);
    assert(cmd_getconfigvalue()[0] != cmd_setconfigvalue()[0]);
    assert(cmd_deletecontact()[0] != cmd_updatecontact()[0]);
    assert(cmd_addcontact()[0] != cmd_updateuser()[0]);
    assert(cmd_sendappfocusstate()[0] != cmd_pinghiddenservice()[0]);
    assert(cmd_deleteallcontacts()[0] != cmd_sendappfocusstate()[0]);
    assert(cmd_deleteallcontacts()[0] != cmd_pinghiddenservice()[0]);
}

/// A command's tag determines its variant.
proof fn lemma_name_determines(c: RpcCommand, nb: Seq<u8>)
    requires
        nb == cmd_name(c),
    ensures
        nb == cmd_loadcontacts() ==> c is LoadContacts,
        nb == cmd_loadchat() ==> c is LoadChat,
        nb == cmd_sendmessage() ==> c is SendMessage,
        nb == cmd_addcontact() ==> c is AddContact,
        nb == cmd_updatecontact() ==> c is UpdateContact,
        nb == cmd_loaduser() ==> c is LoadUser,
        nb == cmd_updateuser() ==> c is UpdateUser,
        nb == cmd_deletecontactmessages() ==> c is DeleteContactMessages,
        nb == cmd_deletecontact() ==> c is DeleteContact,
        nb == cmd_deleteallcontacts() ==> c is DeleteAllContacts,
        nb == cmd_resettorcircuit() ==> c is ResetTorCircuit,
        nb == cmd_sendappfocusstate() ==> c is SendAppFocusState,
        nb == cmd_getconfigvalue() ==> c is GetConfigValue,
        nb == cmd_setconfigvalue() ==> c is SetConfigValue,
        nb == cmd_pinghiddenservice() ==> c is PingHiddenService,
        nb == cmd_pingdaemon() ==> c is PingDaemon,
{
    lemma_cmd_tags_distinct();
    assert(cmd_loadcontacts().len() == 12);
    assert(cmd_loadchat().len() == 8);
    assert(cmd_sendmessage().len() == 11);
    assert(cmd_addcontact().len() == 10);
    assert(cmd_updatecontact().len() == 13);
    assert(cmd_loaduser().len() == 8);
    assert(cmd_updateuser().len() == 10);
    assert(cmd_deletecontactmessages().len() == 21);
    assert(cmd_deletecontact().len() == 13);
    assert(cmd_deleteallcontacts().len() == 17);
    assert(cmd_resettorcircuit().len() == 15);
    assert(cmd_sendappfocusstate().len() == 17);
    assert(cmd_getconfigvalue().len() == 14);
    assert(cmd_setconfigvalue().len() == 14);
    assert(cmd_pinghiddenservice().len() == 17);
    assert(cmd_pingdaemon().len() == 10);
    match c {
        RpcCommand::LoadContacts => {},
        RpcCommand::LoadChat { .. } => {},
        RpcCommand::SendMessage { .. } => {},
        RpcCommand::AddContact { .. } => {},
        RpcCommand::UpdateContact { .. } => {},
        RpcCommand::LoadUser => {},
        RpcCommand::UpdateUser { .. } => {},
        RpcCommand::DeleteContactMessages { .. } => {},
        RpcCommand::DeleteContact { .. } => {},
        RpcCommand::DeleteAllContacts => {},
        RpcCommand::ResetTorCircuit => {},
        RpcCommand::SendAppFocusState { .. } => {},
        RpcCommand::GetConfigValue { .. } => {},
        RpcCommand::SetConfigValue { .. } => {},
        RpcCommand::PingHiddenService => {},
        RpcCommand::PingDaemon => {},
    }
}

/// Where the head and the field tail of a request stand, for any field
/// bytes that follow the quoted command tag.
proof fn lemma_cmd_head(data: Seq<u8>, c: RpcCommand, f: Seq<u8>)
    requires
        data == spec_cmd_head(cmd_name(c)) + f + seq![125u8],
    ensures
        data.len() == 9 + jescape(cmd_name(c)).len() + f.len() + 1,
        data.subrange(0, 8) == seq![123u8, 34, 99, 109, 100, 34, 58, 34],
        jstring_at(data, 8, cmd_name(c), 9 + jescape(cmd_name(c)).len() as int),
        data.subrange(9 + jescape(cmd_name(c)).len() as int, data.len() as int) == f + seq![125u8],
{
    let n = cmd_name(c);
    let flat = seq![123u8, 34, 99, 109, 100, 34, 58, 34] + (jescape(n) + seq![34u8]) + f + seq![
        125u8,
    ];
    assert(data =~= flat);
    assert(data.subrange(0, 8) =~= seq![123u8, 34, 99, 109, 100, 34, 58, 34]);
    assert(data.subrange(8, 9 + jescape(n).len() as int) =~= jescape(n) + seq![34u8]);
    assert(data.subrange(9 + jescape(n).len() as int, data.len() as int) =~= f + seq![125u8]);
}

/// Convert an optional raw field value into text.
fn opt_string_from_utf8(v: Option<Vec<u8>>) -> (r: Option<Option<String>>)
    ensures
        match r {
            Some(x) => (match (x, v) {
                (Some(s), Some(b)) => text_bytes(s@) == b@,
                (None, None) => true,
                _ => false,
            }),
            None => (match v {
                Some(b) => !vstd::utf8::valid_utf8(b@),
                None => false,
            }),
        },
{
    match v {
        Some(b) => match string_from_utf8(b) {
            Some(s) => Some(Some(s)),
            None => None,
        },
        None => Some(None),
    }
}




/// The UTF-8 bytes of an optional text value.
pub open spec fn opt_text(v: Option<Seq<char>>) -> Option<Seq<u8>> {
    match v {
        Some(s) => Some(text_bytes(s)),
        None => None,
    }
}

/// The bytes of a present optional text value are valid UTF-8.
proof fn lemma_opt_text_valid(v: Option<Seq<char>>)
    ensures
        match opt_text(v) {
            Some(b) => vstd::utf8::valid_utf8(b),
            None => true,
        },
{
    match v {
        Some(s) => {
            vstd::utf8::encode_utf8_valid_utf8(s);
        },
        None => {},
    }
}

/// Read one canonical request line; succeeds exactly on the canonical
/// encoding of some command.

fn parse_cmd_loadcontacts(data: &Vec<u8>, Ghost(nb): Ghost<Seq<u8>>, p1: usize) -> (r: Result<
    RpcCommand,
    RpcError,
>)
    requires
        p1 <= data@.len(),
        data@.subrange(0, 8) == seq![123u8, 34, 99, 109, 100, 34, 58, 34],
        jstring_at(data@, 8, nb, p1 as int),
        nb == cmd_loadcontacts(),
    ensures
        match r {
            Ok(c) => data@ == spec_encode_command(c) || data@ == spec_encode_command_alpha(c),
            Err(e) => e is MalformedCommand && forall|c: RpcCommand|
                data@ != spec_encode_command(c) && data@ != spec_encode_command_alpha(c),
        },
{
        proof {
            assert forall|c: RpcCommand|
                data@ == spec_encode_command(c) || data@ == spec_encode_command_alpha(
                    c,
                ) implies (c is LoadContacts && (data@ == spec_encode_command(c) ==> data@.subrange(
                p1 as int,
                data@.len() as int,
            ) == cmd_fields(c) + seq![125u8]) && (data@ == spec_encode_command_alpha(c)
                ==> data@.subrange(p1 as int, data@.len() as int) == cmd_fields_alpha(c) + seq![
                125u8,
            ])) by {
                if data@ == spec_encode_command(c) {
                    lemma_cmd_head(data@, c, cmd_fields(c));
                    lemma_two_jstrings_align(
                        data@,
                        8,
                        nb,
                        p1 as int,
                        cmd_name(c),
                        9 + jescape(cmd_name(c)).len() as int,
                    );
                    lemma_name_determines(c, nb);
                }
                if data@ == spec_encode_command_alpha(c) {
                    lemma_cmd_head(data@, c, cmd_fields_alpha(c));
                    lemma_two_jstrings_align(
                        data@,
                        8,
                        nb,
                        p1 as int,
                        cmd_name(c),
                        9 + jescape(cmd_name(c)).len() as int,
                    );
                    lemma_name_determines(c, nb);
                }
            }
        }
        if parse_tail_close(data, p1) {
            proof {
                assert(data@ =~= data@.subrange(0, 8) + (jescape(nb) + seq![34u8]) + data@.subrange(
                    p1 as int,
                    data@.len() as int,
                ));
                assert(data@ =~= spec_encode_command(RpcCommand::LoadContacts));
            }
            return Ok(RpcCommand::LoadContacts);
        } else {
                proof {
                    assert forall|c: RpcCommand| data@ != spec_encode_command(c) && data@
                        != spec_encode_command_alpha(c) by {
                        if data@ == spec_encode_command(c) {
                            assert(c == RpcCommand::LoadContacts);
                            assert(cmd_fields(c) + seq![125u8] =~= seq![125u8]);
                        }
                        if data@ == spec_encode_command_alpha(c) {
                            lemma_alpha_same(c);
                            assert(spec_encode_command_alpha(c) == spec_encode_command(c));
                        }
                    }
                }
                return Err(RpcError::MalformedCommand);
        }
}


fn parse_cmd_loaduser(data: &Vec<u8>, Ghost(nb): Ghost<Seq<u8>>, p1: usize) -> (r: Result<
    RpcCommand,
    RpcError,
>)
    requires
        p1 <= data@.len(),
        data@.subrange(0, 8) == seq![123u8, 34, 99, 109, 100, 34, 58, 34],
        jstring_at(data@, 8, nb, p1 as int),
        nb == cmd_loaduser(),
    ensures
        match r {
            Ok(c) => data@ == spec_encode_command(c) || data@ == spec_encode_command_alpha(c),
            Err(e) => e is MalformedCommand && forall|c: RpcCommand|
                data@ != spec_encode_command(c) && data@ != spec_encode_command_alpha(c),
        },
{
        proof {
            assert forall|c: RpcCommand|
                data@ == spec_encode_command(c) || data@ == spec_encode_command_alpha(
                    c,
                ) implies (c is LoadUser && (data@ == spec_encode_command(c) ==> data@.subrange(
                p1 as int,
                data@.len() as int,
            ) == cmd_fields(c) + seq![125u8]) && (data@ == spec_encode_command_alpha(c)
                ==> data@.subrange(p1 as int, data@.len() as int) == cmd_fields_alpha(c) + seq![
                125u8,
            ])) by {
                if data@ == spec_encode_command(c) {
                    lemma_cmd_head(data@, c, cmd_fields(c));
                    lemma_two_jstrings_align(
                        data@,
                        8,
                        nb,
                        p1 as int,
                        cmd_name(c),
                        9 + jescape(cmd_name(c)).len() as int,
                    );
                    lemma_name_determines(c, nb);
                }
                if data@ == spec_encode_command_alpha(c) {
                    lemma_cmd_head(data@, c, cmd_fields_alpha(c));
                    lemma_two_jstrings_align(
                        data@,
                        8,
                        nb,
                        p1 as int,
                        cmd_name(c),
                        9 + jescape(cmd_name(c)).len() as int,
                    );
                    lemma_name_determines(c, nb);
                }
            }
        }
        if parse_tail_close(data, p1) {
            proof {
                assert(data@ =~= data@.subrange(0, 8) + (jescape(nb) + seq![34u8]) + data@.subrange(
                    p1 as int,
                    data@.len() as int,
                ));
                assert(data@ =~= spec_encode_command(RpcCommand::LoadUser));
            }
            return Ok(RpcCommand::LoadUser);
        } else {
                proof {
                    assert forall|c: RpcCommand| data@ != spec_encode_command(c) && data@
                        != spec_encode_command_alpha(c) by {
                        if data@ == spec_encode_command(c) {
                            assert(c == RpcCommand::LoadUser);
                            assert(cmd_fields(c) + seq![125u8] =~= seq![125u8]);
                        }
                        if data@ == spec_encode_command_alpha(c) {
                            lemma_alpha_same(c);
                            assert(spec_encode_command_alpha(c) == spec_encode_command(c));
                        }
                    }
                }
                return Err(RpcError::MalformedCommand);
        }
}


fn parse_cmd_deleteallcontacts(data: &Vec<u8>, Ghost(nb): Ghost<Seq<u8>>, p1: usize) -> (r: Result<
    RpcCommand,
    RpcError,
>)
    requires
        p1 <= data@.len(),
        data@.subrange(0, 8) == seq![123u8, 34, 99, 109, 100, 34, 58, 34],
        jstring_at(data@, 8, nb, p1 as int),
        nb == cmd_deleteallcontacts(),
    ensures
        match r {
            Ok(c) => data@ == spec_encode_command(c) || data@ == spec_encode_command_alpha(c),
            Err(e) => e is MalformedCommand && forall|c: RpcCommand|
                data@ != spec_encode_command(c) && data@ != spec_encode_command_alpha(c),
        },
{
        proof {
            assert forall|c: RpcCommand|
                data@ == spec_encode_command(c) || data@ == spec_encode_command_alpha(
                    c,
                ) implies (c is DeleteAllContacts && (data@ == spec_encode_command(c) ==> data@.subrange(
                p1 as int,
                data@.len() as int,
            ) == cmd_fields(c) + seq![125u8]) && (data@ == spec_encode_command_alpha(c)
                ==> data@.subrange(p1 as int, data@.len() as int) == cmd_fields_alpha(c) + seq![
                125u8,
            ])) by {
                if data@ == spec_encode_command(c) {
                    lemma_cmd_head(data@, c, cmd_fields(c));
                    lemma_two_jstrings_align(
                        data@,
                        8,
                        nb,
                        p1 as int,
                        cmd_name(c),
                        9 + jescape(cmd_name(c)).len() as int,
                    );
                    lemma_name_determines(c, nb);
                }
                if data@ == spec_encode_command_alpha(c) {
                    lemma_cmd_head(data@, c, cmd_fields_alpha(c));
                    lemma_two_jstrings_align(
                        data@,
                        8,
                        nb,
                        p1 as int,
                        cmd_name(c),
                        9 + jescape(cmd_name(c)).len() as int,
                    );
                    lemma_name_determines(c, nb);
                }
            }
        }
        if parse_tail_close(data, p1) {
            proof {
                assert(data@ =~= data@.subrange(0, 8) + (jescape(nb) + seq![34u8]) + data@.subrange(
                    p1 as int,
                    data@.len() as int,
                ));
                assert(data@ =~= spec_encode_command(RpcCommand::DeleteAllContacts));
            }
            return Ok(RpcCommand::DeleteAllContacts);
        } else {
                proof {
                    assert forall|c: RpcCommand| data@ != spec_encode_command(c) && data@
                        != spec_encode_command_alpha(c) by {
                        if data@ == spec_encode_command(c) {
                            assert(c == RpcCommand::DeleteAllContacts);
                            assert(cmd_fields(c) + seq![125u8] =~= seq![125u8]);
                        }
                        if data@ == spec_encode_command_alpha(c) {
                            lemma_alpha_same(c);
                            assert(spec_encode_command_alpha(c) == spec_encode_command(c));
                        }
                    }
                }
                return Err(RpcError::MalformedCommand);
        }
}


fn parse_cmd_resettorcircuit(data: &Vec<u8>, Ghost(nb): Ghost<Seq<u8>>, p1: usize) -> (r: Result<
    RpcCommand,
    RpcError,
>)
    requires
        p1 <= data@.len(),
        data@.subrange(0, 8) == seq![123u8, 34, 99, 109, 100, 34, 58, 34],
        jstring_at(data@, 8, nb, p1 as int),
        nb == cmd_resettorcircuit(),
    ensures
        match r {
            Ok(c) => data@ == spec_encode_command(c) || data@ == spec_encode_command_alpha(c),
            Err(e) => e is MalformedCommand && forall|c: RpcCommand|
                data@ != spec_encode_command(c) && data@ != spec_encode_command_alpha(c),
        },
{
        proof {
            assert forall|c: RpcCommand|
                data@ == spec_encode_command(c) || data@ == spec_encode_command_alpha(
                    c,
                ) implies (c is ResetTorCircuit && (data@ == spec_encode_command(c) ==> data@.subrange(
                p1 as int,
                data@.len() as int,
            ) == cmd_fields(c) + seq![125u8]) && (data@ == spec_encode_command_alpha(c)
                ==> data@.subrange(p1 as int, data@.len() as int) == cmd_fields_alpha(c) + seq![
                125u8,
            ])) by {
                if data@ == spec_encode_command(c) {
                    lemma_cmd_head(data@, c, cmd_fields(c));
                    lemma_two_jstrings_align(
                        data@,
                        8,
                        nb,
                        p1 as int,
                        cmd_name(c),
                        9 + jescape(cmd_name(c)).len() as int,
                    );
                    lemma_name_determines(c, nb);
                }
                if data@ == spec_encode_command_alpha(c) {
                    lemma_cmd_head(data@, c, cmd_fields_alpha(c));
                    lemma_two_jstrings_align(
                        data@,
                        8,
                        nb,
                        p1 as int,
                        cmd_name(c),
                        9 + jescape(cmd_name(c)).len() as int,
                    );
                    lemma_name_determines(c, nb);
                }
            }
        }
        if parse_tail_close(data, p1) {
            proof {
                assert(data@ =~= data@.subrange(0, 8) + (jescape(nb) + seq![34u8]) + data@.subrange(
                    p1 as int,
                    data@.len() as int,
                ));
                assert(data@ =~= spec_encode_command(RpcCommand::ResetTorCircuit));
            }
            return Ok(RpcCommand::ResetTorCircuit);
        } else {
                proof {
                    assert forall|c: RpcCommand| data@ != spec_encode_command(c) && data@
                        != spec_encode_command_alpha(c) by {
                        if data@ == spec_encode_command(c) {
                            assert(c == RpcCommand::ResetTorCircuit);
                            assert(cmd_fields(c) + seq![125u8] =~= seq![125u8]);
                        }
                        if data@ == spec_encode_command_alpha(c) {
                            lemma_alpha_same(c);
                            assert(spec_encode_command_alpha(c) == spec_encode_command(c));
                        }
                    }
                }
                return Err(RpcError::MalformedCommand);
        }
}


fn parse_cmd_pinghiddenservice(data: &Vec<u8>, Ghost(nb): Ghost<Seq<u8>>, p1: usize) -> (r: Result<
    RpcCommand,
    RpcError,
>)
    requires
        p1 <= data@.len(),
        data@.subrange(0, 8) == seq![123u8, 34, 99, 109, 100, 34, 58, 34],
        jstring_at(data@, 8, nb, p1 as int),
        nb == cmd_pinghiddenservice(),
    ensures
        match r {
            Ok(c) => data@ == spec_encode_command(c) || data@ == spec_encode_command_alpha(c),
            Err(e) => e is MalformedCommand && forall|c: RpcCommand|
                data@ != spec_encode_command(c) && data@ != spec_encode_command_alpha(c),
        },
{
        proof {
            assert forall|c: RpcCommand|
                data@ == spec_encode_command(c) || data@ == spec_encode_command_alpha(
                    c,
                ) implies (c is PingHiddenService && (data@ == spec_encode_command(c) ==> data@.subrange(
                p1 as int,
                data@.len() as int,
            ) == cmd_fields(c) + seq![125u8]) && (data@ == spec_encode_command_alpha(c)
                ==> data@.subrange(p1 as int, data@.len() as int) == cmd_fields_alpha(c) + seq![
                125u8,
            ])) by {
                if data@ == spec_encode_command(c) {
                    lemma_cmd_head(data@, c, cmd_fields(c));
                    lemma_two_jstrings_align(
                        data@,
                        8,
                        nb,
                        p1 as int,
                        cmd_name(c),
                        9 + jescape(cmd_name(c)).len() as int,
                    );
                    lemma_name_determines(c, nb);
                }
                if data@ == spec_encode_command_alpha(c) {
                    lemma_cmd_head(data@, c, cmd_fields_alpha(c));
                    lemma_two_jstrings_align(
                        data@,
                        8,
                        nb,
                        p1 as int,
                        cmd_name(c),
                        9 + jescape(cmd_name(c)).len() as int,
                    );
                    lemma_name_determines(c, nb);
                }
            }
        }
        if parse_tail_close(data, p1) {
            proof {
                assert(data@ =~= data@.subrange(0, 8) + (jescape(nb) + seq![34u8]) + data@.subrange(
                    p1 as int,
                    data@.len() as int,
                ));
                assert(data@ =~= spec_encode_command(RpcCommand::PingHiddenService));
            }
            return Ok(RpcCommand::PingHiddenService);
        } else {
                proof {
                    assert forall|c: RpcCommand| data@ != spec_encode_command(c) && data@
                        != spec_encode_command_alpha(c) by {
                        if data@ == spec_encode_command(c) {
                            assert(c == RpcCommand::PingHiddenService);
                            assert(cmd_fields(c) + seq![125u8] =~= seq![125u8]);
                        }
                        if data@ == spec_encode_command_alpha(c) {
                            lemma_alpha_same(c);
                            assert(spec_encode_command_alpha(c) == spec_encode_command(c));
                        }
                    }
                }
                return Err(RpcError::MalformedCommand);
        }
}


fn parse_cmd_pingdaemon(data: &Vec<u8>, Ghost(nb): Ghost<Seq<u8>>, p1: usize) -> (r: Result<
    RpcCommand,
    RpcError,
>)
    requires
        p1 <= data@.len(),
        data@.subrange(0, 8) == seq![123u8, 34, 99, 109, 100, 34, 58, 34],
        jstring_at(data@, 8, nb, p1 as int),
        nb == cmd_pingdaemon(),
    ensures
        match r {
            Ok(c) => data@ == spec_encode_command(c) || data@ == spec_encode_command_alpha(c),
            Err(e) => e is MalformedCommand && forall|c: RpcCommand|
                data@ != spec_encode_command(c) && data@ != spec_encode_command_alpha(c),
        },
{
        proof {
            assert forall|c: RpcCommand|
                data@ == spec_encode_command(c) || data@ == spec_encode_command_alpha(
                    c,
                ) implies (c is PingDaemon && (data@ == spec_encode_command(c) ==> data@.subrange(
                p1 as int,
                data@.len() as int,
            ) == cmd_fields(c) + seq![125u8]) && (data@ == spec_encode_command_alpha(c)
                ==> data@.subrange(p1 as int, data@.len() as int) == cmd_fields_alpha(c) + seq![
                125u8,
            ])) by {
                if data@ == spec_encode_command(c) {
                    lemma_cmd_head(data@, c, cmd_fields(c));
                    lemma_two_jstrings_align(
                        data@,
                        8,
                        nb,
                        p1 as int,
                        cmd_name(c),
                        9 + jescape(cmd_name(c)).len() as int,
                    );
                    lemma_name_determines(c, nb);
                }
                if data@ == spec_encode_command_alpha(c) {
                    lemma_cmd_head(data@, c, cmd_fields_alpha(c));
                    lemma_two_jstrings_align(
                        data@,
                        8,
                        nb,
                        p1 as int,
                        cmd_name(c),
                        9 + jescape(cmd_name(c)).len() as int,
                    );
                    lemma_name_determines(c, nb);
                }
            }
        }
        if parse_tail_close(data, p1) {
            proof {
                assert(data@ =~= data@.subrange(0, 8) + (jescape(nb) + seq![34u8]) + data@.subrange(
                    p1 as int,
                    data@.len() as int,
                ));
                assert(data@ =~= spec_encode_command(RpcCommand::PingDaemon));
            }
            return Ok(RpcCommand::PingDaemon);
        } else {
                proof {
                    assert forall|c: RpcCommand| data@ != spec_encode_command(c) && data@
                        != spec_encode_command_alpha(c) by {
                        if data@ == spec_encode_command(c) {
                            assert(c == RpcCommand::PingDaemon);
                            assert(cmd_fields(c) + seq![125u8] =~= seq![125u8]);
                        }
                        if data@ == spec_encode_command_alpha(c) {
                            lemma_alpha_same(c);
                            assert(spec_encode_command_alpha(c) == spec_encode_command(c));
                        }
                    }
                }
                return Err(RpcError::MalformedCommand);
        }
}


fn parse_cmd_loadchat(data: &Vec<u8>, Ghost(nb): Ghost<Seq<u8>>, p1: usize) -> (r: Result<
    RpcCommand,
    RpcError,
>)
    requires
        p1 <= data@.len(),
        data@.subrange(0, 8) == seq![123u8, 34, 99, 109, 100, 34, 58, 34],
        jstring_at(data@, 8, nb, p1 as int),
        nb == cmd_loadchat(),
    ensures
        match r {
            Ok(c) => data@ == spec_encode_command(c) || data@ == spec_encode_command_alpha(c),
            Err(e) => e is MalformedCommand && forall|c: RpcCommand|
                data@ != spec_encode_command(c) && data@ != spec_encode_command_alpha(c),
        },
{
        proof {
            assert forall|c: RpcCommand|
                data@ == spec_encode_command(c) || data@ == spec_encode_command_alpha(
                    c,
                ) implies (c is LoadChat && (data@ == spec_encode_command(c) ==> data@.subrange(
                p1 as int,
                data@.len() as int,
            ) == cmd_fields(c) + seq![125u8]) && (data@ == spec_encode_command_alpha(c)
                ==> data@.subrange(p1 as int, data@.len() as int) == cmd_fields_alpha(c) + seq![
                125u8,
            ])) by {
                if data@ == spec_encode_command(c) {
                    lemma_cmd_head(data@, c, cmd_fields(c));
                    lemma_two_jstrings_align(
                        data@,
                        8,
                        nb,
                        p1 as int,
                        cmd_name(c),
                        9 + jescape(cmd_name(c)).len() as int,
                    );
                    lemma_name_determines(c, nb);
                }
                if data@ == spec_encode_command_alpha(c) {
                    lemma_cmd_head(data@, c, cmd_fields_alpha(c));
                    lemma_two_jstrings_align(
                        data@,
                        8,
                        nb,
                        p1 as int,
                        cmd_name(c),
                        9 + jescape(cmd_name(c)).len() as int,
                    );
                    lemma_name_determines(c, nb);
                }
            }
        }
        match parse_tail_1str(data, p1, kv_onion_id().as_slice()) {
            Some(s) => {
                let ghost sv = s@;
                match string_from_utf8(s) {
                    Some(x) => {
                        let ghost xv = x@;
                        let cmd = RpcCommand::LoadChat { onion_id: x };
                        proof {
                            lemma_fld_str_bytes(n_onion_id(), xv);
                            assert(data@ =~= data@.subrange(0, 8) + (jescape(nb) + seq![34u8])
                                + data@.subrange(p1 as int, data@.len() as int));
                            assert(data@ =~= spec_encode_command(cmd));
                        }
                        return Ok(cmd);
                    },
                    None => {
                        proof {
                            assert forall|c: RpcCommand| data@ != spec_encode_command(c) && data@
                        != spec_encode_command_alpha(c) by {
                                if data@ == spec_encode_command(c) {
                            if let RpcCommand::LoadChat { onion_id } = c {
                                lemma_fld_str_bytes(n_onion_id(), onion_id@);
                                assert(cmd_fields(c) + seq![125u8] =~= tail1(
                                    n_onion_id(),
                                    text_bytes(onion_id@),
                                ));
                            }
                            if let RpcCommand::LoadChat { onion_id } = c {
                                assert(tail1(n_onion_id(), text_bytes(onion_id@)) =~= fld_bytes(
                                    n_onion_id(),
                                    text_bytes(onion_id@),
                                ) + seq![125u8]);
                                assert(tail1(n_onion_id(), sv) =~= fld_bytes(n_onion_id(), sv) + seq![
                                    125u8,
                                ]);
                                lemma_fld_tail_unique(
                                    n_onion_id(),
                                    sv,
                                    seq![125u8],
                                    text_bytes(onion_id@),
                                    seq![125u8],
                                );
                                vstd::utf8::encode_utf8_valid_utf8(onion_id@);
                            }
                                }
                                if data@ == spec_encode_command_alpha(c) {
                                    lemma_alpha_same(c);
                                    assert(spec_encode_command_alpha(c) == spec_encode_command(c));
                                }
                            }
                        }
                        return Err(RpcError::MalformedCommand);
                    },
                }
            },
            None => {
                proof {
                    assert forall|c: RpcCommand| data@ != spec_encode_command(c) && data@
                        != spec_encode_command_alpha(c) by {
                        if data@ == spec_encode_command(c) {
                            if let RpcCommand::LoadChat { onion_id } = c {
                                lemma_fld_str_bytes(n_onion_id(), onion_id@);
                                assert(cmd_fields(c) + seq![125u8] =~= tail1(
                                    n_onion_id(),
                                    text_bytes(onion_id@),
                                ));
                            }
                        }
                        if data@ == spec_encode_command_alpha(c) {
                            lemma_alpha_same(c);
                            assert(spec_encode_command_alpha(c) == spec_encode_command(c));
                        }
                    }
                }
                return Err(RpcError::MalformedCommand);
            },
        }
}


fn parse_cmd_deletecontactmessages(data: &Vec<u8>, Ghost(nb): Ghost<Seq<u8>>, p1: usize) -> (r: Result<
    RpcCommand,
    RpcError,
>)
    requires
        p1 <= data@.len(),
        data@.subrange(0, 8) == seq![123u8, 34, 99, 109, 100, 34, 58, 34],
        jstring_at(data@, 8, nb, p1 as int),
        nb == cmd_deletecontactmessages(),
    ensures
        match r {
            Ok(c) => data@ == spec_encode_command(c) || data@ == spec_encode_command_alpha(c),
            Err(e) => e is MalformedCommand && forall|c: RpcCommand|
                data@ != spec_encode_command(c) && data@ != spec_encode_command_alpha(c),
        },
{
        proof {
            assert forall|c: RpcCommand|
                data@ == spec_encode_command(c) || data@ == spec_encode_command_alpha(
                    c,
                ) implies (c is DeleteContactMessages && (data@ == spec_encode_command(c) ==> data@.subrange(
                p1 as int,
                data@.len() as int,
            ) == cmd_fields(c) + seq![125u8]) && (data@ == spec_encode_command_alpha(c)
                ==> data@.subrange(p1 as int, data@.len() as int) == cmd_fields_alpha(c) + seq![
                125u8,
            ])) by {
                if data@ == spec_encode_command(c) {
                    lemma_cmd_head(data@, c, cmd_fields(c));
                    lemma_two_jstrings_align(
                        data@,
                        8,
                        nb,
                        p1 as int,
                        cmd_name(c),
                        9 + jescape(cmd_name(c)).len() as int,
                    );
                    lemma_name_determines(c, nb);
                }
                if data@ == spec_encode_command_alpha(c) {
                    lemma_cmd_head(data@, c, cmd_fields_alpha(c));
                    lemma_two_jstrings_align(
                        data@,
                        8,
                        nb,
                        p1 as int,
                        cmd_name(c),
                        9 + jescape(cmd_name(c)).len() as int,
                    );
                    lemma_name_determines(c, nb);
                }
            }
        }
        match parse_tail_1str(data, p1, kv_onion_id().as_slice()) {
            Some(s) => {
                let ghost sv = s@;
                match string_from_utf8(s) {
                    Some(x) => {
                        let ghost xv = x@;
                        let cmd = RpcCommand::DeleteContactMessages { onion_id: x };
                        proof {
                            lemma_fld_str_bytes(n_onion_id(), xv);
                            assert(data@ =~= data@.subrange(0, 8) + (jescape(nb) + seq![34u8])
                                + data@.subrange(p1 as int, data@.len() as int));
                            assert(data@ =~= spec_encode_command(cmd));
                        }
                        return Ok(cmd);
                    },
                    None => {
                        proof {
                            assert forall|c: RpcCommand| data@ != spec_encode_command(c) && data@
                        != spec_encode_command_alpha(c) by {
                                if data@ == spec_encode_command(c) {
                            if let RpcCommand::DeleteContactMessages { onion_id } = c {
                                lemma_fld_str_bytes(n_onion_id(), onion_id@);
                                assert(cmd_fields(c) + seq![125u8] =~= tail1(
                                    n_onion_id(),
                                    text_bytes(onion_id@),
                                ));
                            }
                            if let RpcCommand::DeleteContactMessages { onion_id } = c {
                                assert(tail1(n_onion_id(), text_bytes(onion_id@)) =~= fld_bytes(
                                    n_onion_id(),
                                    text_bytes(onion_id@),
                                ) + seq![125u8]);
                                assert(tail1(n_onion_id(), sv) =~= fld_bytes(n_onion_id(), sv) + seq![
                                    125u8,
                                ]);
                                lemma_fld_tail_unique(
                                    n_onion_id(),
                                    sv,
                                    seq![125u8],
                                    text_bytes(onion_id@),
                                    seq![125u8],
                                );
                                vstd::utf8::encode_utf8_valid_utf8(onion_id@);
                            }
                                }
                                if data@ == spec_encode_command_alpha(c) {
                                    lemma_alpha_same(c);
                                    assert(spec_encode_command_alpha(c) == spec_encode_command(c));
                                }
                            }
                        }
                        return Err(RpcError::MalformedCommand);
                    },
                }
            },
            None => {
                proof {
                    assert forall|c: RpcCommand| data@ != spec_encode_command(c) && data@
                        != spec_encode_command_alpha(c) by {
                        if data@ == spec_encode_command(c) {
                            if let RpcCommand::DeleteContactMessages { onion_id } = c {
                                lemma_fld_str_bytes(n_onion_id(), onion_id@);
                                assert(cmd_fields(c) + seq![125u8] =~= tail1(
                                    n_onion_id(),
                                    text_bytes(onion_id@),
                                ));
                            }
                        }
                        if data@ == spec_encode_command_alpha(c) {
                            lemma_alpha_same(c);
                            assert(spec_encode_command_alpha(c) == spec_encode_command(c));
                        }
                    }
                }
                return Err(RpcError::MalformedCommand);
            },
        }
}


fn parse_cmd_deletecontact(data: &Vec<u8>, Ghost(nb): Ghost<Seq<u8>>, p1: usize) -> (r: Result<
    RpcCommand,
    RpcError,
>)
    requires
        p1 <= data@.len(),
        data@.subrange(0, 8) == seq![123u8, 34, 99, 109, 100, 34, 58, 34],
        jstring_at(data@, 8, nb, p1 as int),
        nb == cmd_deletecontact(),
    ensures
        match r {
            Ok(c) => data@ == spec_encode_command(c) || data@ == spec_encode_command_alpha(c),
            Err(e) => e is MalformedCommand && forall|c: RpcCommand|
                data@ != spec_encode_command(c) && data@ != spec_encode_command_alpha(c),
        },
{
        proof {
            assert forall|c: RpcCommand|
                data@ == spec_encode_command(c) || data@ == spec_encode_command_alpha(
                    c,
                ) implies (c is DeleteContact && (data@ == spec_encode_command(c) ==> data@.subrange(
                p1 as int,
                data@.len() as int,
            ) == cmd_fields(c) + seq![125u8]) && (data@ == spec_encode_command_alpha(c)
                ==> data@.subrange(p1 as int, data@.len() as int) == cmd_fields_alpha(c) + seq![
                125u8,
            ])) by {
                if data@ == spec_encode_command(c) {
                    lemma_cmd_head(data@, c, cmd_fields(c));
                    lemma_two_jstrings_align(
                        data@,
                        8,
                        nb,
                        p1 as int,
                        cmd_name(c),
                        9 + jescape(cmd_name(c)).len() as int,
                    );
                    lemma_name_determines(c, nb);
                }
                if data@ == spec_encode_command_alpha(c) {
                    lemma_cmd_head(data@, c, cmd_fields_alpha(c));
                    lemma_two_jstrings_align(
                        data@,
                        8,
                        nb,
                        p1 as int,
                        cmd_name(c),
                        9 + jescape(cmd_name(c)).len() as int,
                    );
                    lemma_name_determines(c, nb);
                }
            }
        }
        match parse_tail_1str(data, p1, kv_onion_id().as_slice()) {
            Some(s) => {
                let ghost sv = s@;
                match string_from_utf8(s) {
                    Some(x) => {
                        let ghost xv = x@;
                        let cmd = RpcCommand::DeleteContact { onion_id: x };
                        proof {
                            lemma_fld_str_bytes(n_onion_id(), xv);
                            assert(data@ =~= data@.subrange(0, 8) + (jescape(nb) + seq![34u8])
                                + data@.subrange(p1 as int, data@.len() as int));
                            assert(data@ =~= spec_encode_command(cmd));
                        }
                        return Ok(cmd);
                    },
                    None => {
                        proof {
                            assert forall|c: RpcCommand| data@ != spec_encode_command(c) && data@
                        != spec_encode_command_alpha(c) by {
                                if data@ == spec_encode_command(c) {
                            if let RpcCommand::DeleteContact { onion_id } = c {
                                lemma_fld_str_bytes(n_onion_id(), onion_id@);
                                assert(cmd_fields(c) + seq![125u8] =~= tail1(
                                    n_onion_id(),
                                    text_bytes(onion_id@),
                                ));
                            }
                            if let RpcCommand::DeleteContact { onion_id } = c {
                                assert(tail1(n_onion_id(), text_bytes(onion_id@)) =~= fld_bytes(
                                    n_onion_id(),
                                    text_bytes(onion_id@),
                                ) + seq![125u8]);
                                assert(tail1(n_onion_id(), sv) =~= fld_bytes(n_onion_id(), sv) + seq![
                                    125u8,
                                ]);
                                lemma_fld_tail_unique(
                                    n_onion_id(),
                                    sv,
                                    seq![125u8],
                                    text_bytes(onion_id@),
                                    seq![125u8],
                                );
                                vstd::utf8::encode_utf8_valid_utf8(onion_id@);
                            }
                                }
                                if data@ == spec_encode_command_alpha(c) {
                                    lemma_alpha_same(c);
                                    assert(spec_encode_command_alpha(c) == spec_encode_command(c));
                                }
                            }
                        }
                        return Err(RpcError::MalformedCommand);
                    },
                }
            },
            None => {
                proof {
                    assert forall|c: RpcCommand| data@ != spec_encode_command(c) && data@
                        != spec_encode_command_alpha(c) by {
                        if data@ == spec_encode_command(c) {
                            if let RpcCommand::DeleteContact { onion_id } = c {
                                lemma_fld_str_bytes(n_onion_id(), onion_id@);
                                assert(cmd_fields(c) + seq![125u8] =~= tail1(
                                    n_onion_id(),
                                    text_bytes(onion_id@),
                                ));
                            }
                        }
                        if data@ == spec_encode_command_alpha(c) {
                            lemma_alpha_same(c);
                            assert(spec_encode_command_alpha(c) == spec_encode_command(c));
                        }
                    }
                }
                return Err(RpcError::MalformedCommand);
            },
        }
}


fn parse_cmd_getconfigvalue(data: &Vec<u8>, Ghost(nb): Ghost<Seq<u8>>, p1: usize) -> (r: Result<
    RpcCommand,
    RpcError,
>)
    requires
        p1 <= data@.len(),
        data@.subrange(0, 8) == seq![123u8, 34, 99, 109, 100, 34, 58, 34],
        jstring_at(data@, 8, nb, p1 as int),
        nb == cmd_getconfigvalue(),
    ensures
        match r {
            Ok(c) => data@ == spec_encode_command(c) || data@ == spec_encode_command_alpha(c),
            Err(e) => e is MalformedCommand && forall|c: RpcCommand|
                data@ != spec_encode_command(c) && data@ != spec_encode_command_alpha(c),
        },
{
        proof {
            assert forall|c: RpcCommand|
                data@ == spec_encode_command(c) || data@ == spec_encode_command_alpha(
                    c,
                ) implies (c is GetConfigValue && (data@ == spec_encode_command(c) ==> data@.subrange(
                p1 as int,
                data@.len() as int,
            ) == cmd_fields(c) + seq![125u8]) && (data@ == spec_encode_command_alpha(c)
                ==> data@.subrange(p1 as int, data@.len() as int) == cmd_fields_alpha(c) + seq![
                125u8,
            ])) by {
                if data@ == spec_encode_command(c) {
                    lemma_cmd_head(data@, c, cmd_fields(c));
                    lemma_two_jstrings_align(
                        data@,
                        8,
                        nb,
                        p1 as int,
                        cmd_name(c),
                        9 + jescape(cmd_name(c)).len() as int,
                    );
                    lemma_name_determines(c, nb);
                }
                if data@ == spec_encode_command_alpha(c) {
                    lemma_cmd_head(data@, c, cmd_fields_alpha(c));
                    lemma_two_jstrings_align(
                        data@,
                        8,
                        nb,
                        p1 as int,
                        cmd_name(c),
                        9 + jescape(cmd_name(c)).len() as int,
                    );
                    lemma_name_determines(c, nb);
                }
            }
        }
        match parse_tail_1str(data, p1, kv_key().as_slice()) {
            Some(s) => {
                let ghost sv = s@;
                match string_from_utf8(s) {
                    Some(x) => {
                        let ghost xv = x@;
                        let cmd = RpcCommand::GetConfigValue { key: x };
                        proof {
                            lemma_fld_str_bytes(n_key(), xv);
                            assert(data@ =~= data@.subrange(0, 8) + (jescape(nb) + seq![34u8])
                                + data@.subrange(p1 as int, data@.len() as int));
                            assert(data@ =~= spec_encode_command(cmd));
                        }
                        return Ok(cmd);
                    },
                    None => {
                        proof {
                            assert forall|c: RpcCommand| data@ != spec_encode_command(c) && data@
                        != spec_encode_command_alpha(c) by {
                                if data@ == spec_encode_command(c) {
                            if let RpcCommand::GetConfigValue { key } = c {
                                lemma_fld_str_bytes(n_key(), key@);
                                assert(cmd_fields(c) + seq![125u8] =~= tail1(
                                    n_key(),
                                    text_bytes(key@),
                                ));
                            }
                            if let RpcCommand::GetConfigValue { key } = c {
                                assert(tail1(n_key(), text_bytes(key@)) =~= fld_bytes(
                                    n_key(),
                                    text_bytes(key@),
                                ) + seq![125u8]);
                                assert(tail1(n_key(), sv) =~= fld_bytes(n_key(), sv) + seq![
                                    125u8,
                                ]);
                                lemma_fld_tail_unique(
                                    n_key(),
                                    sv,
                                    seq![125u8],
                                    text_bytes(key@),
                                    seq![125u8],
                                );
                                vstd::utf8::encode_utf8_valid_utf8(key@);
                            }
                                }
                                if data@ == spec_encode_command_alpha(c) {
                                    lemma_alpha_same(c);
                                    assert(spec_encode_command_alpha(c) == spec_encode_command(c));
                                }
                            }
                        }
                        return Err(RpcError::MalformedCommand);
                    },
                }
            },
            None => {
                proof {
                    assert forall|c: RpcCommand| data@ != spec_encode_command(c) && data@
                        != spec_encode_command_alpha(c) by {
                        if data@ == spec_encode_command(c) {
                            if let RpcCommand::GetConfigValue { key } = c {
                                lemma_fld_str_bytes(n_key(), key@);
                                assert(cmd_fields(c) + seq![125u8] =~= tail1(
                                    n_key(),
                                    text_bytes(key@),
                                ));
                            }
                        }
                        if data@ == spec_encode_command_alpha(c) {
                            lemma_alpha_same(c);
                            assert(spec_encode_command_alpha(c) == spec_encode_command(c));
                        }
                    }
                }
                return Err(RpcError::MalformedCommand);
            },
        }
}


#[verifier::rlimit(100)]
#[verifier::spinoff_prover]
fn parse_cmd_sendmessage(data: &Vec<u8>, Ghost(nb): Ghost<Seq<u8>>, p1: usize) -> (r: Result<
    RpcCommand,
    RpcError,
>)
    requires
        p1 <= data@.len(),
        data@.subrange(0, 8) == seq![123u8, 34, 99, 109, 100, 34, 58, 34],
        jstring_at(data@, 8, nb, p1 as int),
        nb == cmd_sendmessage(),
    ensures
        match r {
            Ok(c) => data@ == spec_encode_command(c) || data@ == spec_encode_command_alpha(c),
            Err(e) => e is MalformedCommand && forall|c: RpcCommand|
                data@ != spec_encode_command(c) && data@ != spec_encode_command_alpha(c),
        },
{
        proof {
            assert forall|c: RpcCommand|
                data@ == spec_encode_command(c) || data@ == spec_encode_command_alpha(
                    c,
                ) implies (c is SendMessage && (data@ == spec_encode_command(c) ==> data@.subrange(
                p1 as int,
                data@.len() as int,
            ) == cmd_fields(c) + seq![125u8]) && (data@ == spec_encode_command_alpha(c)
                ==> data@.subrange(p1 as int, data@.len() as int) == cmd_fields_alpha(c) + seq![
                125u8,
            ])) by {
                if data@ == spec_encode_command(c) {
                    lemma_cmd_head(data@, c, cmd_fields(c));
                    lemma_two_jstrings_align(
                        data@,
                        8,
                        nb,
                        p1 as int,
                        cmd_name(c),
                        9 + jescape(cmd_name(c)).len() as int,
                    );
                    lemma_name_determines(c, nb);
                }
                if data@ == spec_encode_command_alpha(c) {
                    lemma_cmd_head(data@, c, cmd_fields_alpha(c));
                    lemma_two_jstrings_align(
                        data@,
                        8,
                        nb,
                        p1 as int,
                        cmd_name(c),
                        9 + jescape(cmd_name(c)).len() as int,
                    );
                    lemma_name_determines(c, nb);
                }
            }
        }
    match parse_tail_2str(data, p1, kv_to().as_slice(), kv_text().as_slice()) {
        Some((a, b)) => {
            let ghost av = a@;
            let ghost bv = b@;
            proof {
                assert(tail2(n_to(), av, n_text(), bv) =~= fld_bytes(n_to(), av) + (fld_bytes(
                    n_text(),
                    bv,
                ) + seq![125u8]));
            }
            let xa = match string_from_utf8(a) {
                Some(x) => x,
                None => {
                    proof {
                        assert forall|c: RpcCommand| data@ != spec_encode_command(c) && data@
                            != spec_encode_command_alpha(c) by {
                            if data@ == spec_encode_command(c) {
                            if let RpcCommand::SendMessage { to, text } = c {
                                lemma_fld_str_bytes(n_to(), to@);
                                lemma_fld_str_bytes(n_text(), text@);
                                assert(cmd_fields(c) + seq![125u8] =~= tail2(
                                    n_to(),
                                    text_bytes(to@),
                                    n_text(),
                                    text_bytes(text@),
                                ));
                            }
                            if let RpcCommand::SendMessage { to, text } = c {
                                assert(tail2(
                                    n_to(),
                                    text_bytes(to@),
                                    n_text(),
                                    text_bytes(text@),
                                ) =~= fld_bytes(n_to(), text_bytes(to@)) + (fld_bytes(
                                    n_text(),
                                    text_bytes(text@),
                                ) + seq![125u8]));
                                lemma_fld_tail_unique(
                                    n_to(),
                                    av,
                                    fld_bytes(n_text(), bv) + seq![125u8],
                                    text_bytes(to@),
                                    fld_bytes(n_text(), text_bytes(text@)) + seq![125u8],
                                );
                                lemma_fld_tail_unique(
                                    n_text(),
                                    bv,
                                    seq![125u8],
                                    text_bytes(text@),
                                    seq![125u8],
                                );
                                vstd::utf8::encode_utf8_valid_utf8(to@);
                                vstd::utf8::encode_utf8_valid_utf8(text@);
                            }
                            }
                            if data@ == spec_encode_command_alpha(c) {
                            if let RpcCommand::SendMessage { to, text } = c {
                                lemma_fld_str_bytes(n_to(), to@);
                                lemma_fld_str_bytes(n_text(), text@);
                                let tl = data@.subrange(p1 as int, data@.len() as int);
                                assert(tl =~= fld_bytes(n_to(), av) + (fld_bytes(n_text(), bv)
                                    + seq![125u8]));
                                assert(fld_bytes(n_to(), av)[3] == 111);
                                assert(tl[3] == 111);
                                assert(cmd_fields_alpha(c) + seq![125u8] =~= fld_bytes(
                                    n_text(),
                                    text_bytes(text@),
                                ) + (fld_bytes(n_to(), text_bytes(to@)) + seq![125u8]));
                                assert(fld_bytes(n_text(), text_bytes(text@))[3] == 101);
                                assert(tl[3] == 101);
                                assert(false);
                            }
                            }
                        }
                    }
                    return Err(RpcError::MalformedCommand);
                },
            };
            let xb = match string_from_utf8(b) {
                Some(x) => x,
                None => {
                    proof {
                        assert forall|c: RpcCommand| data@ != spec_encode_command(c) && data@
                            != spec_encode_command_alpha(c) by {
                            if data@ == spec_encode_command(c) {
                            if let RpcCommand::SendMessage { to, text } = c {
                                lemma_fld_str_bytes(n_to(), to@);
                                lemma_fld_str_bytes(n_text(), text@);
                                assert(cmd_fields(c) + seq![125u8] =~= tail2(
                                    n_to(),
                                    text_bytes(to@),
                                    n_text(),
                                    text_bytes(text@),
                                ));
                            }
                            if let RpcCommand::SendMessage { to, text } = c {
                                assert(tail2(
                                    n_to(),
                                    text_bytes(to@),
                                    n_text(),
                                    text_bytes(text@),
                                ) =~= fld_bytes(n_to(), text_bytes(to@)) + (fld_bytes(
                                    n_text(),
                                    text_bytes(text@),
                                ) + seq![125u8]));
                                lemma_fld_tail_unique(
                                    n_to(),
                                    av,
                                    fld_bytes(n_text(), bv) + seq![125u8],
                                    text_bytes(to@),
                                    fld_bytes(n_text(), text_bytes(text@)) + seq![125u8],
                                );
                                lemma_fld_tail_unique(
                                    n_text(),
                                    bv,
                                    seq![125u8],
                                    text_bytes(text@),
                                    seq![125u8],
                                );
                                vstd::utf8::encode_utf8_valid_utf8(to@);
                                vstd::utf8::encode_utf8_valid_utf8(text@);
                            }
                            }
                            if data@ == spec_encode_command_alpha(c) {
                            if let RpcCommand::SendMessage { to, text } = c {
                                lemma_fld_str_bytes(n_to(), to@);
                                lemma_fld_str_bytes(n_text(), text@);
                                let tl = data@.subrange(p1 as int, data@.len() as int);
                                assert(tl =~= fld_bytes(n_to(), av) + (fld_bytes(n_text(), bv)
                                    + seq![125u8]));
                                assert(fld_bytes(n_to(), av)[3] == 111);
                                assert(tl[3] == 111);
                                assert(cmd_fields_alpha(c) + seq![125u8] =~= fld_bytes(
                                    n_text(),
                                    text_bytes(text@),
                                ) + (fld_bytes(n_to(), text_bytes(to@)) + seq![125u8]));
                                assert(fld_bytes(n_text(), text_bytes(text@))[3] == 101);
                                assert(tl[3] == 101);
                                assert(false);
                            }
                            }
                        }
                    }
                    return Err(RpcError::MalformedCommand);
                },
            };
            let ghost xav = xa@;
            let ghost xbv = xb@;
            let cmd = RpcCommand::SendMessage { to: xa, text: xb };
            proof {
                lemma_fld_str_bytes(n_to(), xav);
                lemma_fld_str_bytes(n_text(), xbv);
                assert(data@ =~= data@.subrange(0, 8) + (jescape(nb) + seq![34u8])
                    + data@.subrange(p1 as int, data@.len() as int));
                assert(data@ =~= spec_encode_command(cmd));
            }
            return Ok(cmd);
        },
        None => {
            match parse_tail_2str(data, p1, kv_text().as_slice(), kv_to().as_slice()) {
                Some((b, a)) => {
                    let ghost bv = b@;
                    let ghost av = a@;
                    proof {
                        assert(tail2(n_text(), bv, n_to(), av) =~= fld_bytes(n_text(), bv) + (
                        fld_bytes(n_to(), av) + seq![125u8]));
                    }
                    let xb = match string_from_utf8(b) {
                        Some(x) => x,
                        None => {
                        proof {
                            assert forall|c: RpcCommand| data@ != spec_encode_command(c) && data@
                                != spec_encode_command_alpha(c) by {
                                if data@ == spec_encode_command(c) {
                            if let RpcCommand::SendMessage { to, text } = c {
                                lemma_fld_str_bytes(n_to(), to@);
                                lemma_fld_str_bytes(n_text(), text@);
                                assert(cmd_fields(c) + seq![125u8] =~= tail2(
                                    n_to(),
                                    text_bytes(to@),
                                    n_text(),
                                    text_bytes(text@),
                                ));
                            }
                                }
                                if data@ == spec_encode_command_alpha(c) {
                            if let RpcCommand::SendMessage { to, text } = c {
                                lemma_fld_str_bytes(n_to(), to@);
                                lemma_fld_str_bytes(n_text(), text@);
                                assert(cmd_fields_alpha(c) + seq![125u8] =~= tail2(
                                    n_text(),
                                    text_bytes(text@),
                                    n_to(),
                                    text_bytes(to@),
                                ));
                            }
                            if let RpcCommand::SendMessage { to, text } = c {
                                assert(tail2(
                                    n_text(),
                                    text_bytes(text@),
                                    n_to(),
                                    text_bytes(to@),
                                ) =~= fld_bytes(n_text(), text_bytes(text@)) + (fld_bytes(
                                    n_to(),
                                    text_bytes(to@),
                                ) + seq![125u8]));
                                lemma_fld_tail_unique(
                                    n_text(),
                                    bv,
                                    fld_bytes(n_to(), av) + seq![125u8],
                                    text_bytes(text@),
                                    fld_bytes(n_to(), text_bytes(to@)) + seq![125u8],
                                );
                                lemma_fld_tail_unique(
                                    n_to(),
                                    av,
                                    seq![125u8],
                                    text_bytes(to@),
                                    seq![125u8],
                                );
                                vstd::utf8::encode_utf8_valid_utf8(to@);
                                vstd::utf8::encode_utf8_valid_utf8(text@);
                            }
                                }
                            }
                        }
                        return Err(RpcError::MalformedCommand);
                        },
                    };
                    let xa = match string_from_utf8(a) {
                        Some(x) => x,
                        None => {
                        proof {
                            assert forall|c: RpcCommand| data@ != spec_encode_command(c) && data@
                                != spec_encode_command_alpha(c) by {
                                if data@ == spec_encode_command(c) {
                            if let RpcCommand::SendMessage { to, text } = c {
                                lemma_fld_str_bytes(n_to(), to@);
                                lemma_fld_str_bytes(n_text(), text@);
                                assert(cmd_fields(c) + seq![125u8] =~= tail2(
                                    n_to(),
                                    text_bytes(to@),
                                    n_text(),
                                    text_bytes(text@),
                                ));
                            }
                                }
                                if data@ == spec_encode_command_alpha(c) {
                            if let RpcCommand::SendMessage { to, text } = c {
                                lemma_fld_str_bytes(n_to(), to@);
                                lemma_fld_str_bytes(n_text(), text@);
                                assert(cmd_fields_alpha(c) + seq![125u8] =~= tail2(
                                    n_text(),
                                    text_bytes(text@),
                                    n_to(),
                                    text_bytes(to@),
                                ));
                            }
                            if let RpcCommand::SendMessage { to, text } = c {
                                assert(tail2(
                                    n_text(),
                                    text_bytes(text@),
                                    n_to(),
                                    text_bytes(to@),
                                ) =~= fld_bytes(n_text(), text_bytes(text@)) + (fld_bytes(
                                    n_to(),
                                    text_bytes(to@),
                                ) + seq![125u8]));
                                lemma_fld_tail_unique(
                                    n_text(),
                                    bv,
                                    fld_bytes(n_to(), av) + seq![125u8],
                                    text_bytes(text@),
                                    fld_bytes(n_to(), text_bytes(to@)) + seq![125u8],
                                );
                                lemma_fld_tail_unique(
                                    n_to(),
                                    av,
                                    seq![125u8],
                                    text_bytes(to@),
                                    seq![125u8],
                                );
                                vstd::utf8::encode_utf8_valid_utf8(to@);
                                vstd::utf8::encode_utf8_valid_utf8(text@);
                            }
                                }
                            }
                        }
                        return Err(RpcError::MalformedCommand);
                        },
                    };
                    let ghost xav = xa@;
                    let ghost xbv = xb@;
                    let cmd = RpcCommand::SendMessage { to: xa, text: xb };
                    proof {
                        lemma_fld_str_bytes(n_to(), xav);
                        lemma_fld_str_bytes(n_text(), xbv);
                        assert(data@ =~= data@.subrange(0, 8) + (jescape(nb) + seq![34u8])
                            + data@.subrange(p1 as int, data@.len() as int));
                        assert(data@ =~= spec_encode_command_alpha(cmd));
                    }
                    return Ok(cmd);
                },
                None => {
                    proof {
                        assert forall|c: RpcCommand| data@ != spec_encode_command(c) && data@
                            != spec_encode_command_alpha(c) by {
                            if data@ == spec_encode_command(c) {
                            if let RpcCommand::SendMessage { to, text } = c {
                                lemma_fld_str_bytes(n_to(), to@);
                                lemma_fld_str_bytes(n_text(), text@);
                                assert(cmd_fields(c) + seq![125u8] =~= tail2(
                                    n_to(),
                                    text_bytes(to@),
                                    n_text(),
                                    text_bytes(text@),
                                ));
                            }
                            }
                            if data@ == spec_encode_command_alpha(c) {
                            if let RpcCommand::SendMessage { to, text } = c {
                                lemma_fld_str_bytes(n_to(), to@);
                                lemma_fld_str_bytes(n_text(), text@);
                                assert(cmd_fields_alpha(c) + seq![125u8] =~= tail2(
                                    n_text(),
                                    text_bytes(text@),
                                    n_to(),
                                    text_bytes(to@),
                                ));
                            }
                            }
                        }
                    }
                    return Err(RpcError::MalformedCommand);
                },
            }
        },
    }
}
fn parse_cmd_setconfigvalue(data: &Vec<u8>, Ghost(nb): Ghost<Seq<u8>>, p1: usize) -> (r: Result<
    RpcCommand,
    RpcError,
>)
    requires
        p1 <= data@.len(),
        data@.subrange(0, 8) == seq![123u8, 34, 99, 109, 100, 34, 58, 34],
        jstring_at(data@, 8, nb, p1 as int),
        nb == cmd_setconfigvalue(),
    ensures
        match r {
            Ok(c) => data@ == spec_encode_command(c) || data@ == spec_encode_command_alpha(c),
            Err(e) => e is MalformedCommand && forall|c: RpcCommand|
                data@ != spec_encode_command(c) && data@ != spec_encode_command_alpha(c),
        },
{
        proof {
            assert forall|c: RpcCommand|
                data@ == spec_encode_command(c) || data@ == spec_encode_command_alpha(
                    c,
                ) implies (c is SetConfigValue && (data@ == spec_encode_command(c) ==> data@.subrange(
                p1 as int,
                data@.len() as int,
            ) == cmd_fields(c) + seq![125u8]) && (data@ == spec_encode_command_alpha(c)
                ==> data@.subrange(p1 as int, data@.len() as int) == cmd_fields_alpha(c) + seq![
                125u8,
            ])) by {
                if data@ == spec_encode_command(c) {
                    lemma_cmd_head(data@, c, cmd_fields(c));
                    lemma_two_jstrings_align(
                        data@,
                        8,
                        nb,
                        p1 as int,
                        cmd_name(c),
                        9 + jescape(cmd_name(c)).len() as int,
                    );
                    lemma_name_determines(c, nb);
                }
                if data@ == spec_encode_command_alpha(c) {
                    lemma_cmd_head(data@, c, cmd_fields_alpha(c));
                    lemma_two_jstrings_align(
                        data@,
                        8,
                        nb,
                        p1 as int,
                        cmd_name(c),
                        9 + jescape(cmd_name(c)).len() as int,
                    );
                    lemma_name_determines(c, nb);
                }
            }
        }
        match parse_tail_2str(data, p1, kv_key().as_slice(), kv_value().as_slice()) {
            Some((a, b)) => {
                let ghost av = a@;
                let ghost bv = b@;
                proof {
                    assert(tail2(n_key(), av, n_value(), bv) =~= fld_bytes(n_key(), av) + (
                    fld_bytes(n_value(), bv) + seq![125u8]));
                }
                let xa = match string_from_utf8(a) {
                    Some(x) => x,
                    None => {
                        proof {
                            assert forall|c: RpcCommand| data@ != spec_encode_command(c) && data@
                        != spec_encode_command_alpha(c) by {
                                if data@ == spec_encode_command(c) {
                            if let RpcCommand::SetConfigValue { key, value } = c {
                                lemma_fld_str_bytes(n_key(), key@);
                                lemma_fld_str_bytes(n_value(), value@);
                                assert(cmd_fields(c) + seq![125u8] =~= tail2(
                                    n_key(),
                                    text_bytes(key@),
                                    n_value(),
                                    text_bytes(value@),
                                ));
                            }
                            if let RpcCommand::SetConfigValue { key, value } = c {
                                assert(tail2(
                                    n_key(),
                                    text_bytes(key@),
                                    n_value(),
                                    text_bytes(value@),
                                ) =~= fld_bytes(n_key(), text_bytes(key@)) + (fld_bytes(
                                    n_value(),
                                    text_bytes(value@),
                                ) + seq![125u8]));
                                lemma_fld_tail_unique(
                                    n_key(),
                                    av,
                                    fld_bytes(n_value(), bv) + seq![125u8],
                                    text_bytes(key@),
                                    fld_bytes(n_value(), text_bytes(value@)) + seq![125u8],
                                );
                                lemma_fld_tail_unique(
                                    n_value(),
                                    bv,
                                    seq![125u8],
                                    text_bytes(value@),
                                    seq![125u8],
                                );
                                vstd::utf8::encode_utf8_valid_utf8(key@);
                                vstd::utf8::encode_utf8_valid_utf8(value@);
                            }
                                }
                                if data@ == spec_encode_command_alpha(c) {
                                    lemma_alpha_same(c);
                                    assert(spec_encode_command_alpha(c) == spec_encode_command(c));
                                }
                            }
                        }
                        return Err(RpcError::MalformedCommand);
                    },
                };
                let xb = match string_from_utf8(b) {
                    Some(x) => x,
                    None => {
                        proof {
                            assert forall|c: RpcCommand| data@ != spec_encode_command(c) && data@
                        != spec_encode_command_alpha(c) by {
                                if data@ == spec_encode_command(c) {
                            if let RpcCommand::SetConfigValue { key, value } = c {
                                lemma_fld_str_bytes(n_key(), key@);
                                lemma_fld_str_bytes(n_value(), value@);
                                assert(cmd_fields(c) + seq![125u8] =~= tail2(
                                    n_key(),
                                    text_bytes(key@),
                                    n_value(),
                                    text_bytes(value@),
                                ));
                            }
                            if let RpcCommand::SetConfigValue { key, value } = c {
                                assert(tail2(
                                    n_key(),
                                    text_bytes(key@),
                                    n_value(),
                                    text_bytes(value@),
                                ) =~= fld_bytes(n_key(), text_bytes(key@)) + (fld_bytes(
                                    n_value(),
                                    text_bytes(value@),
                                ) + seq![125u8]));
                                lemma_fld_tail_unique(
                                    n_key(),
                                    av,
                                    fld_bytes(n_value(), bv) + seq![125u8],
                                    text_bytes(key@),
                                    fld_bytes(n_value(), text_bytes(value@)) + seq![125u8],
                                );
                                lemma_fld_tail_unique(
                                    n_value(),
                                    bv,
                                    seq![125u8],
                                    text_bytes(value@),
                                    seq![125u8],
                                );
                                vstd::utf8::encode_utf8_valid_utf8(key@);
                                vstd::utf8::encode_utf8_valid_utf8(value@);
                            }
                                }
                                if data@ == spec_encode_command_alpha(c) {
                                    lemma_alpha_same(c);
                                    assert(spec_encode_command_alpha(c) == spec_encode_command(c));
                                }
                            }
                        }
                        return Err(RpcError::MalformedCommand);
                    },
                };
                let ghost xav = xa@;
                let ghost xbv = xb@;
                let cmd = RpcCommand::SetConfigValue { key: xa, value: xb };
                proof {
                    lemma_fld_str_bytes(n_key(), xav);
                    lemma_fld_str_bytes(n_value(), xbv);
                    assert(data@ =~= data@.subrange(0, 8) + (jescape(nb) + seq![34u8])
                        + data@.subrange(p1 as int, data@.len() as int));
                    assert(data@ =~= spec_encode_command(cmd));
                }
                return Ok(cmd);
            },
            None => {
                proof {
                    assert forall|c: RpcCommand| data@ != spec_encode_command(c) && data@
                        != spec_encode_command_alpha(c) by {
                        if data@ == spec_encode_command(c) {
                            if let RpcCommand::SetConfigValue { key, value } = c {
                                lemma_fld_str_bytes(n_key(), key@);
                                lemma_fld_str_bytes(n_value(), value@);
                                assert(cmd_fields(c) + seq![125u8] =~= tail2(
                                    n_key(),
                                    text_bytes(key@),
                                    n_value(),
                                    text_bytes(value@),
                                ));
                            }
                        }
                        if data@ == spec_encode_command_alpha(c) {
                            lemma_alpha_same(c);
                            assert(spec_encode_command_alpha(c) == spec_encode_command(c));
                        }
                    }
                }
                return Err(RpcError::MalformedCommand);
            },
        }
}


#[verifier::rlimit(100)]
#[verifier::spinoff_prover]
fn parse_cmd_addcontact(data: &Vec<u8>, Ghost(nb): Ghost<Seq<u8>>, p1: usize) -> (r: Result<
    RpcCommand,
    RpcError,
>)
    requires
        p1 <= data@.len(),
        data@.subrange(0, 8) == seq![123u8, 34, 99, 109, 100, 34, 58, 34],
        jstring_at(data@, 8, nb, p1 as int),
        nb == cmd_addcontact(),
    ensures
        match r {
            Ok(c) => data@ == spec_encode_command(c) || data@ == spec_encode_command_alpha(c),
            Err(e) => e is MalformedCommand && forall|c: RpcCommand|
                data@ != spec_encode_command(c) && data@ != spec_encode_command_alpha(c),
        },
{
        proof {
            assert forall|c: RpcCommand|
                data@ == spec_encode_command(c) || data@ == spec_encode_command_alpha(
                    c,
                ) implies (c is AddContact && (data@ == spec_encode_command(c) ==> data@.subrange(
                p1 as int,
                data@.len() as int,
            ) == cmd_fields(c) + seq![125u8]) && (data@ == spec_encode_command_alpha(c)
                ==> data@.subrange(p1 as int, data@.len() as int) == cmd_fields_alpha(c) + seq![
                125u8,
            ])) by {
                if data@ == spec_encode_command(c) {
                    lemma_cmd_head(data@, c, cmd_fields(c));
                    lemma_two_jstrings_align(
                        data@,
                        8,
                        nb,
                        p1 as int,
                        cmd_name(c),
                        9 + jescape(cmd_name(c)).len() as int,
                    );
                    lemma_name_determines(c, nb);
                }
                if data@ == spec_encode_command_alpha(c) {
                    lemma_cmd_head(data@, c, cmd_fields_alpha(c));
                    lemma_two_jstrings_align(
                        data@,
                        8,
                        nb,
                        p1 as int,
                        cmd_name(c),
                        9 + jescape(cmd_name(c)).len() as int,
                    );
                    lemma_name_determines(c, nb);
                }
            }
        }
        match parse_tail_3str(
            data,
            p1,
            kv_nickname().as_slice(),
            kv_onion_id().as_slice(),
            kv_public_key().as_slice(),
        ) {
            Some((a, b, cc)) => {
                let ghost av = a@;
                let ghost bv = b@;
                let ghost cv = cc@;
                proof {
                    assert(tail3(n_nickname(), av, n_onion_id(), bv, n_public_key(), cv)
                        =~= fld_bytes(n_nickname(), av) + (fld_bytes(n_onion_id(), bv) + (
                    fld_bytes(n_public_key(), cv) + seq![125u8])));
                }
                let xa = match string_from_utf8(a) {
                    Some(x) => x,
                    None => {
                        proof {
                            assert forall|c: RpcCommand| data@ != spec_encode_command(c) && data@
                        != spec_encode_command_alpha(c) by {
                                if data@ == spec_encode_command(c) {
                            if let RpcCommand::AddContact { nickname, onion_id, public_key } = c {
                                lemma_fld_str_bytes(n_nickname(), nickname@);
                                lemma_fld_str_bytes(n_onion_id(), onion_id@);
                                lemma_fld_str_bytes(n_public_key(), public_key@);
                                assert(cmd_fields(c) + seq![125u8] =~= tail3(
                                    n_nickname(),
                                    text_bytes(nickname@),
                                    n_onion_id(),
                                    text_bytes(onion_id@),
                                    n_public_key(),
                                    text_bytes(public_key@),
                                ));
                            }
                            if let RpcCommand::AddContact { nickname, onion_id, public_key } = c {
                                assert(tail3(
                                    n_nickname(),
                                    text_bytes(nickname@),
                                    n_onion_id(),
                                    text_bytes(onion_id@),
                                    n_public_key(),
                                    text_bytes(public_key@),
                                ) =~= fld_bytes(n_nickname(), text_bytes(nickname@)) + (fld_bytes(
                                    n_onion_id(),
                                    text_bytes(onion_id@),
                                ) + (fld_bytes(n_public_key(), text_bytes(public_key@)) + seq![
                                    125u8,
                                ])));
                                lemma_fld_tail_unique(
                                    n_nickname(),
                                    av,
                                    fld_bytes(n_onion_id(), bv) + (fld_bytes(n_public_key(), cv)
                                        + seq![125u8]),
                                    text_bytes(nickname@),
                                    fld_bytes(n_onion_id(), text_bytes(onion_id@)) + (fld_bytes(
                                        n_public_key(),
                                        text_bytes(public_key@),
                                    ) + seq![125u8]),
                                );
                                lemma_fld_tail_unique(
                                    n_onion_id(),
                                    bv,
                                    fld_bytes(n_public_key(), cv) + seq![125u8],
                                    text_bytes(onion_id@),
                                    fld_bytes(n_public_key(), text_bytes(public_key@)) + seq![
                                        125u8,
                                    ],
                                );
                                lemma_fld_tail_unique(
                                    n_public_key(),
                                    cv,
                                    seq![125u8],
                                    text_bytes(public_key@),
                                    seq![125u8],
                                );
                                vstd::utf8::encode_utf8_valid_utf8(nickname@);
                                vstd::utf8::encode_utf8_valid_utf8(onion_id@);
                                vstd::utf8::encode_utf8_valid_utf8(public_key@);
                            }
                                }
                                if data@ == spec_encode_command_alpha(c) {
                                    lemma_alpha_same(c);
                                    assert(spec_encode_command_alpha(c) == spec_encode_command(c));
                                }
                            }
                        }
                        return Err(RpcError::MalformedCommand);
                    },
                };
                let xb = match string_from_utf8(b) {
                    Some(x) => x,
                    None => {
                        proof {
                            assert forall|c: RpcCommand| data@ != spec_encode_command(c) && data@
                        != spec_encode_command_alpha(c) by {
                                if data@ == spec_encode_command(c) {
                            if let RpcCommand::AddContact { nickname, onion_id, public_key } = c {
                                lemma_fld_str_bytes(n_nickname(), nickname@);
                                lemma_fld_str_bytes(n_onion_id(), onion_id@);
                                lemma_fld_str_bytes(n_public_key(), public_key@);
                                assert(cmd_fields(c) + seq![125u8] =~= tail3(
                                    n_nickname(),
                                    text_bytes(nickname@),
                                    n_onion_id(),
                                    text_bytes(onion_id@),
                                    n_public_key(),
                                    text_bytes(public_key@),
                                ));
                            }
                            if let RpcCommand::AddContact { nickname, onion_id, public_key } = c {
                                assert(tail3(
                                    n_nickname(),
                                    text_bytes(nickname@),
                                    n_onion_id(),
                                    text_bytes(onion_id@),
                                    n_public_key(),
                                    text_bytes(public_key@),
                                ) =~= fld_bytes(n_nickname(), text_bytes(nickname@)) + (fld_bytes(
                                    n_onion_id(),
                                    text_bytes(onion_id@),
                                ) + (fld_bytes(n_public_key(), text_bytes(public_key@)) + seq![
                                    125u8,
                                ])));
                                lemma_fld_tail_unique(
                                    n_nickname(),
                                    av,
                                    fld_bytes(n_onion_id(), bv) + (fld_bytes(n_public_key(), cv)
                                        + seq![125u8]),
                                    text_bytes(nickname@),
                                    fld_bytes(n_onion_id(), text_bytes(onion_id@)) + (fld_bytes(
                                        n_public_key(),
                                        text_bytes(public_key@),
                                    ) + seq![125u8]),
                                );
                                lemma_fld_tail_unique(
                                    n_onion_id(),
                                    bv,
                                    fld_bytes(n_public_key(), cv) + seq![125u8],
                                    text_bytes(onion_id@),
                                    fld_bytes(n_public_key(), text_bytes(public_key@)) + seq![
                                        125u8,
                                    ],
                                );
                                lemma_fld_tail_unique(
                                    n_public_key(),
                                    cv,
                                    seq![125u8],
                                    text_bytes(public_key@),
                                    seq![125u8],
                                );
                                vstd::utf8::encode_utf8_valid_utf8(nickname@);
                                vstd::utf8::encode_utf8_valid_utf8(onion_id@);
                                vstd::utf8::encode_utf8_valid_utf8(public_key@);
                            }
                                }
                                if data@ == spec_encode_command_alpha(c) {
                                    lemma_alpha_same(c);
                                    assert(spec_encode_command_alpha(c) == spec_encode_command(c));
                                }
                            }
                        }
                        return Err(RpcError::MalformedCommand);
                    },
                };
                let xc = match string_from_utf8(cc) {
                    Some(x) => x,
                    None => {
                        proof {
                            assert forall|c: RpcCommand| data@ != spec_encode_command(c) && data@
                        != spec_encode_command_alpha(c) by {
                                if data@ == spec_encode_command(c) {
                            if let RpcCommand::AddContact { nickname, onion_id, public_key } = c {
                                lemma_fld_str_bytes(n_nickname(), nickname@);
                                lemma_fld_str_bytes(n_onion_id(), onion_id@);
                                lemma_fld_str_bytes(n_public_key(), public_key@);
                                assert(cmd_fields(c) + seq![125u8] =~= tail3(
                                    n_nickname(),
                                    text_bytes(nickname@),
                                    n_onion_id(),
                                    text_bytes(onion_id@),
                                    n_public_key(),
                                    text_bytes(public_key@),
                                ));
                            }
                            if let RpcCommand::AddContact { nickname, onion_id, public_key } = c {
                                assert(tail3(
                                    n_nickname(),
                                    text_bytes(nickname@),
                                    n_onion_id(),
                                    text_bytes(onion_id@),
                                    n_public_key(),
                                    text_bytes(public_key@),
                                ) =~= fld_bytes(n_nickname(), text_bytes(nickname@)) + (fld_bytes(
                                    n_onion_id(),
                                    text_bytes(onion_id@),
                                ) + (fld_bytes(n_public_key(), text_bytes(public_key@)) + seq![
                                    125u8,
                                ])));
                                lemma_fld_tail_unique(
                                    n_nickname(),
                                    av,
                                    fld_bytes(n_onion_id(), bv) + (fld_bytes(n_public_key(), cv)
                                        + seq![125u8]),
                                    text_bytes(nickname@),
                                    fld_bytes(n_onion_id(), text_bytes(onion_id@)) + (fld_bytes(
                                        n_public_key(),
                                        text_bytes(public_key@),
                                    ) + seq![125u8]),
                                );
                                lemma_fld_tail_unique(
                                    n_onion_id(),
                                    bv,
                                    fld_bytes(n_public_key(), cv) + seq![125u8],
                                    text_bytes(onion_id@),
                                    fld_bytes(n_public_key(), text_bytes(public_key@)) + seq![
                                        125u8,
                                    ],
                                );
                                lemma_fld_tail_unique(
                                    n_public_key(),
                                    cv,
                                    seq![125u8],
                                    text_bytes(public_key@),
                                    seq![125u8],
                                );
                                vstd::utf8::encode_utf8_valid_utf8(nickname@);
                                vstd::utf8::encode_utf8_valid_utf8(onion_id@);
                                vstd::utf8::encode_utf8_valid_utf8(public_key@);
                            }
                                }
                                if data@ == spec_encode_command_alpha(c) {
                                    lemma_alpha_same(c);
                                    assert(spec_encode_command_alpha(c) == spec_encode_command(c));
                                }
                            }
                        }
                        return Err(RpcError::MalformedCommand);
                    },
                };
                let ghost xav = xa@;
                let ghost xbv = xb@;
                let ghost xcv = xc@;
                let cmd = RpcCommand::AddContact { nickname: xa, onion_id: xb, public_key: xc };
                proof {
                    lemma_fld_str_bytes(n_nickname(), xav);
                    lemma_fld_str_bytes(n_onion_id(), xbv);
                    lemma_fld_str_bytes(n_public_key(), xcv);
                    assert(data@ =~= data@.subrange(0, 8) + (jescape(nb) + seq![34u8])
                        + data@.subrange(p1 as int, data@.len() as int));
                    assert(data@ =~= spec_encode_command(cmd));
                }
                return Ok(cmd);
            },
            None => {
                proof {
                    assert forall|c: RpcCommand| data@ != spec_encode_command(c) && data@
                        != spec_encode_command_alpha(c) by {
                        if data@ == spec_encode_command(c) {
                            if let RpcCommand::AddContact { nickname, onion_id, public_key } = c {
                                lemma_fld_str_bytes(n_nickname(), nickname@);
                                lemma_fld_str_bytes(n_onion_id(), onion_id@);
                                lemma_fld_str_bytes(n_public_key(), public_key@);
                                assert(cmd_fields(c) + seq![125u8] =~= tail3(
                                    n_nickname(),
                                    text_bytes(nickname@),
                                    n_onion_id(),
                                    text_bytes(onion_id@),
                                    n_public_key(),
                                    text_bytes(public_key@),
                                ));
                            }
                        }
                        if data@ == spec_encode_command_alpha(c) {
                            lemma_alpha_same(c);
                            assert(spec_encode_command_alpha(c) == spec_encode_command(c));
                        }
                    }
                }
                return Err(RpcError::MalformedCommand);
            },
        }
}


fn parse_cmd_sendappfocusstate(data: &Vec<u8>, Ghost(nb): Ghost<Seq<u8>>, p1: usize) -> (r: Result<
    RpcCommand,
    RpcError,
>)
    requires
        p1 <= data@.len(),
        data@.subrange(0, 8) == seq![123u8, 34, 99, 109, 100, 34, 58, 34],
        jstring_at(data@, 8, nb, p1 as int),
        nb == cmd_sendappfocusstate(),
    ensures
        match r {
            Ok(c) => data@ == spec_encode_command(c) || data@ == spec_encode_command_alpha(c),
            Err(e) => e is MalformedCommand && forall|c: RpcCommand|
                data@ != spec_encode_command(c) && data@ != spec_encode_command_alpha(c),
        },
{
        proof {
            assert forall|c: RpcCommand|
                data@ == spec_encode_command(c) || data@ == spec_encode_command_alpha(
                    c,
                ) implies (c is SendAppFocusState && (data@ == spec_encode_command(c) ==> data@.subrange(
                p1 as int,
                data@.len() as int,
            ) == cmd_fields(c) + seq![125u8]) && (data@ == spec_encode_command_alpha(c)
                ==> data@.subrange(p1 as int, data@.len() as int) == cmd_fields_alpha(c) + seq![
                125u8,
            ])) by {
                if data@ == spec_encode_command(c) {
                    lemma_cmd_head(data@, c, cmd_fields(c));
                    lemma_two_jstrings_align(
                        data@,
                        8,
                        nb,
                        p1 as int,
                        cmd_name(c),
                        9 + jescape(cmd_name(c)).len() as int,
                    );
                    lemma_name_determines(c, nb);
                }
                if data@ == spec_encode_command_alpha(c) {
                    lemma_cmd_head(data@, c, cmd_fields_alpha(c));
                    lemma_two_jstrings_align(
                        data@,
                        8,
                        nb,
                        p1 as int,
                        cmd_name(c),
                        9 + jescape(cmd_name(c)).len() as int,
                    );
                    lemma_name_determines(c, nb);
                }
            }
        }
        match parse_tail_1bool(data, p1, kv_focussed().as_slice()) {
            Some(b) => {
                let cmd = RpcCommand::SendAppFocusState { focussed: b };
                proof {
                    assert(data@ =~= data@.subrange(0, 8) + (jescape(nb) + seq![34u8])
                        + data@.subrange(p1 as int, data@.len() as int));
                    assert(data@ =~= spec_encode_command(cmd));
                }
                return Ok(cmd);
            },
            None => {
                proof {
                    assert forall|c: RpcCommand| data@ != spec_encode_command(c) && data@
                        != spec_encode_command_alpha(c) by {
                        if data@ == spec_encode_command(c) {
                            if let RpcCommand::SendAppFocusState { focussed } = c {
                                assert(cmd_fields(c) + seq![125u8] =~= tail_b(
                                    n_focussed(),
                                    focussed,
                                ));
                            }
                        }
                        if data@ == spec_encode_command_alpha(c) {
                            lemma_alpha_same(c);
                            assert(spec_encode_command_alpha(c) == spec_encode_command(c));
                        }
                    }
                }
                return Err(RpcError::MalformedCommand);
            },
        }
}




/// Tail of one optional field and the closing brace.
pub open spec fn tail_1o(k: Seq<u8>, v: Option<Seq<u8>>) -> Seq<u8> {
    ofld_bytes(k, v) + seq![125u8]
}

/// Tail of a string field, an optional field and the closing brace.
pub open spec fn tail_1s1o(k2: Seq<u8>, s2: Seq<u8>, k3: Seq<u8>, v3: Option<Seq<u8>>) -> Seq<u8> {
    fld_bytes(k2, s2) + tail_1o(k3, v3)
}

/// Tail of an optional field, a string field, an optional field and the
/// closing brace — the alphabetical order of a contact update.
pub open spec fn tail_o1s1o(
    k1: Seq<u8>,
    v1: Option<Seq<u8>>,
    k2: Seq<u8>,
    s2: Seq<u8>,
    k3: Seq<u8>,
    v3: Option<Seq<u8>>,
) -> Seq<u8> {
    ofld_bytes(k1, v1) + tail_1s1o(k2, s2, k3, v3)
}

/// Read a one-optional-field tail.
#[verifier::rlimit(100)]
#[verifier::spinoff_prover]
fn parse_tail_1opt(data: &Vec<u8>, pos: usize, k1: &[u8]) -> (r: Option<Option<Vec<u8>>>)
    requires
        pos <= data@.len(),
    ensures
        match r {
            Some(v) => data@.subrange(pos as int, data@.len() as int) == tail_1o(
                k1@,
                match v {
                    Some(s) => Some(s@),
                    None => None,
                },
            ),
            None => forall|v: Option<Seq<u8>>|
                data@.subrange(pos as int, data@.len() as int) != tail_1o(k1@, v),
        },
{
    let ghost suffix = data@.subrange(pos as int, data@.len() as int);
    let (a, j) = match parse_field_opt(data, pos, k1) {
        Some(p) => p,
        None => {
            proof {
                assert forall|v: Option<Seq<u8>>| suffix != tail_1o(k1@, v) by {
                    if suffix == tail_1o(k1@, v) {
                        let j0 = pos + ofld_bytes(k1@, v).len();
                        assert(suffix.len() == ofld_bytes(k1@, v).len() + 1);
                        assert(suffix.subrange(0, ofld_bytes(k1@, v).len() as int) =~= ofld_bytes(
                            k1@,
                            v,
                        ));
                        assert(data@.subrange(pos as int, j0 as int) =~= suffix.subrange(
                            0,
                            ofld_bytes(k1@, v).len() as int,
                        ));
                    }
                }
            }
            return None;
        },
    };
    let ghost av = match &a {
        Some(s) => Some(s@),
        None => None::<Seq<u8>>,
    };
    if parse_tail_close(data, j) {
        proof {
            assert(suffix =~= data@.subrange(pos as int, j as int) + data@.subrange(
                j as int,
                data@.len() as int,
            ));
            assert(suffix =~= tail_1o(k1@, av));
        }
        Some(a)
    } else {
        proof {
            assert forall|v: Option<Seq<u8>>| suffix != tail_1o(k1@, v) by {
                if suffix == tail_1o(k1@, v) {
                    assert(suffix =~= ofld_bytes(k1@, av) + data@.subrange(
                        j as int,
                        data@.len() as int,
                    ));
                    lemma_ofld_tail_unique(
                        k1@,
                        av,
                        data@.subrange(j as int, data@.len() as int),
                        v,
                        seq![125u8],
                    );
                }
            }
        }
        None
    }
}

/// Read a string-then-optional tail.
#[verifier::rlimit(100)]
#[verifier::spinoff_prover]
fn parse_tail_1s1o(data: &Vec<u8>, pos: usize, k2: &[u8], k3: &[u8]) -> (r: Option<
    (Vec<u8>, Option<Vec<u8>>),
>)
    requires
        pos <= data@.len(),
    ensures
        match r {
            Some(p) => data@.subrange(pos as int, data@.len() as int) == tail_1s1o(
                k2@,
                p.0@,
                k3@,
                match p.1 {
                    Some(s) => Some(s@),
                    None => None,
                },
            ),
            None => forall|s2: Seq<u8>, v3: Option<Seq<u8>>|
                data@.subrange(pos as int, data@.len() as int) != tail_1s1o(k2@, s2, k3@, v3),
        },
{
    let ghost suffix = data@.subrange(pos as int, data@.len() as int);
    let (a, j) = match parse_field_str(data, pos, k2) {
        Some(p) => p,
        None => {
            proof {
                assert forall|s2: Seq<u8>, v3: Option<Seq<u8>>|
                    suffix != tail_1s1o(k2@, s2, k3@, v3) by {
                    if suffix == tail_1s1o(k2@, s2, k3@, v3) {
                        let j0 = pos + fld_bytes(k2@, s2).len();
                        assert(suffix.len() == fld_bytes(k2@, s2).len() + ofld_bytes(
                            k3@,
                            v3,
                        ).len() + 1);
                        assert(suffix.subrange(0, fld_bytes(k2@, s2).len() as int) =~= fld_bytes(
                            k2@,
                            s2,
                        ));
                        assert(data@.subrange(pos as int, j0 as int) =~= suffix.subrange(
                            0,
                            fld_bytes(k2@, s2).len() as int,
                        ));
                    }
                }
            }
            return None;
        },
    };
    proof {
        assert forall|s2: Seq<u8>, v3: Option<Seq<u8>>|
            suffix == tail_1s1o(k2@, s2, k3@, v3) implies s2 == a@ && data@.subrange(
            j as int,
            data@.len() as int,
        ) == tail_1o(k3@, v3) by {
            assert(suffix =~= fld_bytes(k2@, a@) + data@.subrange(j as int, data@.len() as int));
            assert(tail_1s1o(k2@, s2, k3@, v3) =~= fld_bytes(k2@, s2) + tail_1o(k3@, v3));
            lemma_fld_tail_unique(
                k2@,
                a@,
                data@.subrange(j as int, data@.len() as int),
                s2,
                tail_1o(k3@, v3),
            );
        }
    }
    match parse_tail_1opt(data, j, k3) {
        Some(b) => {
            proof {
                let bv = match &b {
                    Some(s) => Some(s@),
                    None => None::<Seq<u8>>,
                };
                assert(suffix =~= data@.subrange(pos as int, j as int) + data@.subrange(
                    j as int,
                    data@.len() as int,
                ));
                assert(suffix =~= tail_1s1o(k2@, a@, k3@, bv));
            }
            Some((a, b))
        },
        None => {
            proof {
                assert forall|s2: Seq<u8>, v3: Option<Seq<u8>>|
                    suffix != tail_1s1o(k2@, s2, k3@, v3) by {}
            }
            None
        },
    }
}

/// Read a tail of one string field followed by two optional fields.
#[verifier::rlimit(100)]
#[verifier::spinoff_prover]
fn parse_tail_1s2o(data: &Vec<u8>, pos: usize, k1: &[u8], k2: &[u8], k3: &[u8]) -> (r: Option<
    (Vec<u8>, Option<Vec<u8>>, Option<Vec<u8>>),
>)
    requires
        pos <= data@.len(),
    ensures
        match r {
            Some(p) => data@.subrange(pos as int, data@.len() as int) == tail_1s2o(
                k1@,
                p.0@,
                k2@,
                match p.1 {
                    Some(s) => Some(s@),
                    None => None,
                },
                k3@,
                match p.2 {
                    Some(s) => Some(s@),
                    None => None,
                },
            ),
            None => forall|s1: Seq<u8>, v2: Option<Seq<u8>>, v3: Option<Seq<u8>>|
                data@.subrange(pos as int, data@.len() as int) != tail_1s2o(
                    k1@,
                    s1,
                    k2@,
                    v2,
                    k3@,
                    v3,
                ),
        },
{
    let ghost suffix = data@.subrange(pos as int, data@.len() as int);
    let (a, j) = match parse_field_str(data, pos, k1) {
        Some(p) => p,
        None => {
            proof {
                assert forall|s1: Seq<u8>, v2: Option<Seq<u8>>, v3: Option<Seq<u8>>|
                    suffix != tail_1s2o(k1@, s1, k2@, v2, k3@, v3) by {
                    if suffix == tail_1s2o(k1@, s1, k2@, v2, k3@, v3) {
                        let j0 = pos + fld_bytes(k1@, s1).len();
                        assert(suffix.len() == fld_bytes(k1@, s1).len() + ofld_bytes(
                            k2@,
                            v2,
                        ).len() + ofld_bytes(k3@, v3).len() + 1);
                        assert(suffix.subrange(0, fld_bytes(k1@, s1).len() as int) =~= fld_bytes(
                            k1@,
                            s1,
                        ));
                        assert(data@.subrange(pos as int, j0 as int) =~= suffix.subrange(
                            0,
                            fld_bytes(k1@, s1).len() as int,
                        ));
                    }
                }
            }
            return None;
        },
    };
    proof {
        assert forall|s1: Seq<u8>, v2: Option<Seq<u8>>, v3: Option<Seq<u8>>|
            suffix == tail_1s2o(k1@, s1, k2@, v2, k3@, v3) implies s1 == a@ && data@.subrange(
            j as int,
            data@.len() as int,
        ) == tail_2o(k2@, v2, k3@, v3) by {
            assert(suffix =~= fld_bytes(k1@, a@) + data@.subrange(j as int, data@.len() as int));
            assert(tail_1s2o(k1@, s1, k2@, v2, k3@, v3) =~= fld_bytes(k1@, s1) + tail_2o(
                k2@,
                v2,
                k3@,
                v3,
            ));
            lemma_fld_tail_unique(
                k1@,
                a@,
                data@.subrange(j as int, data@.len() as int),
                s1,
                tail_2o(k2@, v2, k3@, v3),
            );
        }
    }
    match parse_tail_2opt(data, j, k2, k3) {
        Some((b, cc)) => {
            proof {
                let bv = match &b {
                    Some(s) => Some(s@),
                    None => None::<Seq<u8>>,
                };
                let cv = match &cc {
                    Some(s) => Some(s@),
                    None => None::<Seq<u8>>,
                };
                assert(suffix =~= data@.subrange(pos as int, j as int) + data@.subrange(
                    j as int,
                    data@.len() as int,
                ));
                assert(suffix =~= tail_1s2o(k1@, a@, k2@, bv, k3@, cv));
            }
            Some((a, b, cc))
        },
        None => {
            proof {
                assert forall|s1: Seq<u8>, v2: Option<Seq<u8>>, v3: Option<Seq<u8>>|
                    suffix != tail_1s2o(k1@, s1, k2@, v2, k3@, v3) by {}
            }
            None
        },
    }
}

/// Read an optional-string-optional tail.
#[verifier::rlimit(100)]
#[verifier::spinoff_prover]
fn parse_tail_o1s1o(data: &Vec<u8>, pos: usize, k1: &[u8], k2: &[u8], k3: &[u8]) -> (r: Option<
    (Option<Vec<u8>>, Vec<u8>, Option<Vec<u8>>),
>)
    requires
        pos <= data@.len(),
    ensures
        match r {
            Some(p) => data@.subrange(pos as int, data@.len() as int) == tail_o1s1o(
                k1@,
                match p.0 {
                    Some(s) => Some(s@),
                    None => None,
                },
                k2@,
                p.1@,
                k3@,
                match p.2 {
                    Some(s) => Some(s@),
                    None => None,
                },
            ),
            None => forall|v1: Option<Seq<u8>>, s2: Seq<u8>, v3: Option<Seq<u8>>|
                data@.subrange(pos as int, data@.len() as int) != tail_o1s1o(
                    k1@,
                    v1,
                    k2@,
                    s2,
                    k3@,
                    v3,
                ),
        },
{
    let ghost suffix = data@.subrange(pos as int, data@.len() as int);
    let (a, j) = match parse_field_opt(data, pos, k1) {
        Some(p) => p,
        None => {
            proof {
                assert forall|v1: Option<Seq<u8>>, s2: Seq<u8>, v3: Option<Seq<u8>>|
                    suffix != tail_o1s1o(k1@, v1, k2@, s2, k3@, v3) by {
                    if suffix == tail_o1s1o(k1@, v1, k2@, s2, k3@, v3) {
                        let j0 = pos + ofld_bytes(k1@, v1).len();
                        assert(suffix.len() == ofld_bytes(k1@, v1).len() + fld_bytes(
                            k2@,
                            s2,
                        ).len() + ofld_bytes(k3@, v3).len() + 1);
                        assert(suffix.subrange(0, ofld_bytes(k1@, v1).len() as int) =~= ofld_bytes(
                            k1@,
                            v1,
                        ));
                        assert(data@.subrange(pos as int, j0 as int) =~= suffix.subrange(
                            0,
                            ofld_bytes(k1@, v1).len() as int,
                        ));
                    }
                }
            }
            return None;
        },
    };
    let ghost av = match &a {
        Some(s) => Some(s@),
        None => None::<Seq<u8>>,
    };
    proof {
        assert forall|v1: Option<Seq<u8>>, s2: Seq<u8>, v3: Option<Seq<u8>>|
            suffix == tail_o1s1o(k1@, v1, k2@, s2, k3@, v3) implies v1 == av && data@.subrange(
            j as int,
            data@.len() as int,
        ) == tail_1s1o(k2@, s2, k3@, v3) by {
            assert(suffix =~= ofld_bytes(k1@, av) + data@.subrange(j as int, data@.len() as int));
            assert(tail_o1s1o(k1@, v1, k2@, s2, k3@, v3) =~= ofld_bytes(k1@, v1) + tail_1s1o(
                k2@,
                s2,
                k3@,
                v3,
            ));
            lemma_ofld_tail_unique(
                k1@,
                av,
                data@.subrange(j as int, data@.len() as int),
                v1,
                tail_1s1o(k2@, s2, k3@, v3),
            );
        }
    }
    match parse_tail_1s1o(data, j, k2, k3) {
        Some((b, cc)) => {
            proof {
                let cv = match &cc {
                    Some(s) => Some(s@),
                    None => None::<Seq<u8>>,
                };
                assert(suffix =~= data@.subrange(pos as int, j as int) + data@.subrange(
                    j as int,
                    data@.len() as int,
                ));
                assert(suffix =~= tail_o1s1o(k1@, av, k2@, b@, k3@, cv));
            }
            Some((a, b, cc))
        },
        None => {
            proof {
                assert forall|v1: Option<Seq<u8>>, s2: Seq<u8>, v3: Option<Seq<u8>>|
                    suffix != tail_o1s1o(k1@, v1, k2@, s2, k3@, v3) by {}
            }
            None
        },
    }
}

/// Field values parsed from an alphabetically ordered `UpdateContact` tail
/// coincide with the canonical command's fields, so their bytes are valid
/// UTF-8.
proof fn lemma_updatecontact_fields_alpha(
    data: Seq<u8>,
    p1: int,
    c: RpcCommand,
    v1: Option<Seq<u8>>,
    s2: Seq<u8>,
    v3: Option<Seq<u8>>,
)
    requires
        0 <= p1 <= data.len(),
        c is UpdateContact,
        data.subrange(p1, data.len() as int) == cmd_fields_alpha(c) + seq![125u8],
        data.subrange(p1, data.len() as int) == tail_o1s1o(
            n_nickname(),
            v1,
            n_onion_id(),
            s2,
            n_public_key(),
            v3,
        ),
    ensures
        vstd::utf8::valid_utf8(s2),
        match v1 {
            Some(b) => vstd::utf8::valid_utf8(b),
            None => true,
        },
        match v3 {
            Some(b) => vstd::utf8::valid_utf8(b),
            None => true,
        },
{
    if let RpcCommand::UpdateContact { onion_id, nickname, public_key } = c {
        lemma_fld_str_bytes(n_onion_id(), onion_id@);
        lemma_opt_fld_bytes(n_nickname(), opt_view(nickname));
        lemma_opt_fld_bytes(n_public_key(), opt_view(public_key));
        assert(cmd_fields_alpha(c) + seq![125u8] =~= tail_o1s1o(
            n_nickname(),
            opt_text(opt_view(nickname)),
            n_onion_id(),
            text_bytes(onion_id@),
            n_public_key(),
            opt_text(opt_view(public_key)),
        ));
        assert(tail_o1s1o(
            n_nickname(),
            opt_text(opt_view(nickname)),
            n_onion_id(),
            text_bytes(onion_id@),
            n_public_key(),
            opt_text(opt_view(public_key)),
        ) =~= ofld_bytes(n_nickname(), opt_text(opt_view(nickname))) + (fld_bytes(
            n_onion_id(),
            text_bytes(onion_id@),
        ) + (ofld_bytes(n_public_key(), opt_text(opt_view(public_key))) + seq![125u8])));
        assert(tail_o1s1o(n_nickname(), v1, n_onion_id(), s2, n_public_key(), v3) =~= ofld_bytes(
            n_nickname(),
            v1,
        ) + (fld_bytes(n_onion_id(), s2) + (ofld_bytes(n_public_key(), v3) + seq![125u8])));
        lemma_ofld_tail_unique(
            n_nickname(),
            v1,
            fld_bytes(n_onion_id(), s2) + (ofld_bytes(n_public_key(), v3) + seq![125u8]),
            opt_text(opt_view(nickname)),
            fld_bytes(n_onion_id(), text_bytes(onion_id@)) + (ofld_bytes(
                n_public_key(),
                opt_text(opt_view(public_key)),
            ) + seq![125u8]),
        );
        lemma_fld_tail_unique(
            n_onion_id(),
            s2,
            ofld_bytes(n_public_key(), v3) + seq![125u8],
            text_bytes(onion_id@),
            ofld_bytes(n_public_key(), opt_text(opt_view(public_key))) + seq![125u8],
        );
        lemma_ofld_tail_unique(
            n_public_key(),
            v3,
            seq![125u8],
            opt_text(opt_view(public_key)),
            seq![125u8],
        );
        vstd::utf8::encode_utf8_valid_utf8(onion_id@);
        lemma_opt_text_valid(opt_view(nickname));
        lemma_opt_text_valid(opt_view(public_key));
    }
}

/// Field values parsed from an `UpdateContact` tail coincide with the
/// canonical command's fields, so their bytes are valid UTF-8.
proof fn lemma_updatecontact_fields(
    data: Seq<u8>,
    p1: int,
    c: RpcCommand,
    av: Seq<u8>,
    bv: Option<Seq<u8>>,
    cv: Option<Seq<u8>>,
)
    requires
        0 <= p1 <= data.len(),
        c is UpdateContact,
        data.subrange(p1, data.len() as int) == cmd_fields(c) + seq![125u8],
        data.subrange(p1, data.len() as int) == tail_1s2o(
            n_onion_id(),
            av,
            n_nickname(),
            bv,
            n_public_key(),
            cv,
        ),
    ensures
        vstd::utf8::valid_utf8(av),
        match bv {
            Some(b) => vstd::utf8::valid_utf8(b),
            None => true,
        },
        match cv {
            Some(b) => vstd::utf8::valid_utf8(b),
            None => true,
        },
{
    if let RpcCommand::UpdateContact { onion_id, nickname, public_key } = c {
        lemma_fld_str_bytes(n_onion_id(), onion_id@);
        lemma_opt_fld_bytes(n_nickname(), opt_view(nickname));
        lemma_opt_fld_bytes(n_public_key(), opt_view(public_key));
        assert(cmd_fields(c) + seq![125u8] =~= tail_1s2o(
            n_onion_id(),
            text_bytes(onion_id@),
            n_nickname(),
            opt_text(opt_view(nickname)),
            n_public_key(),
            opt_text(opt_view(public_key)),
        ));
        assert(tail_1s2o(
            n_onion_id(),
            text_bytes(onion_id@),
            n_nickname(),
            opt_text(opt_view(nickname)),
            n_public_key(),
            opt_text(opt_view(public_key)),
        ) =~= fld_bytes(n_onion_id(), text_bytes(onion_id@)) + (ofld_bytes(
            n_nickname(),
            opt_text(opt_view(nickname)),
        ) + (ofld_bytes(n_public_key(), opt_text(opt_view(public_key))) + seq![125u8])));
        assert(tail_1s2o(n_onion_id(), av, n_nickname(), bv, n_public_key(), cv) =~= fld_bytes(
            n_onion_id(),
            av,
        ) + (ofld_bytes(n_nickname(), bv) + (ofld_bytes(n_public_key(), cv) + seq![125u8])));
        lemma_fld_tail_unique(
            n_onion_id(),
            av,
            ofld_bytes(n_nickname(), bv) + (ofld_bytes(n_public_key(), cv) + seq![125u8]),
            text_bytes(onion_id@),
            ofld_bytes(n_nickname(), opt_text(opt_view(nickname))) + (ofld_bytes(
                n_public_key(),
                opt_text(opt_view(public_key)),
            ) + seq![125u8]),
        );
        lemma_ofld_tail_unique(
            n_nickname(),
            bv,
            ofld_bytes(n_public_key(), cv) + seq![125u8],
            opt_text(opt_view(nickname)),
            ofld_bytes(n_public_key(), opt_text(opt_view(public_key))) + seq![125u8],
        );
        lemma_ofld_tail_unique(
            n_public_key(),
            cv,
            seq![125u8],
            opt_text(opt_view(public_key)),
            seq![125u8],
        );
        vstd::utf8::encode_utf8_valid_utf8(onion_id@);
        lemma_opt_text_valid(opt_view(nickname));
        lemma_opt_text_valid(opt_view(public_key));
    }
}

/// Read an `UpdateContact` field tail in the canonical key order.
#[verifier::rlimit(100)]
#[verifier::spinoff_prover]
fn uc_from_tail_canon(data: &Vec<u8>, p1: usize) -> (r: Option<RpcCommand>)
    requires
        p1 <= data@.len(),
    ensures
        match r {
            Some(c) => c is UpdateContact && data@.subrange(p1 as int, data@.len() as int)
                == cmd_fields(c) + seq![125u8],
            None => forall|c: RpcCommand|
                c is UpdateContact ==> data@.subrange(p1 as int, data@.len() as int)
                    != cmd_fields(c) + seq![125u8],
        },
{
    let ghost suffix = data@.subrange(p1 as int, data@.len() as int);
    match parse_tail_1s2o(
        data,
        p1,
        kv_onion_id().as_slice(),
        kv_nickname().as_slice(),
        kv_public_key().as_slice(),
    ) {
        Some((a, b, cc)) => {
            let ghost av = a@;
            let ghost bv = match &b {
                Some(s) => Some(s@),
                None => None::<Seq<u8>>,
            };
            let ghost cv = match &cc {
                Some(s) => Some(s@),
                None => None::<Seq<u8>>,
            };
            proof {
                assert forall|c: RpcCommand|
                    c is UpdateContact && suffix == cmd_fields(c) + seq![
                        125u8,
                    ] implies vstd::utf8::valid_utf8(av) && (match bv {
                    Some(x) => vstd::utf8::valid_utf8(x),
                    None => true,
                }) && (match cv {
                    Some(x) => vstd::utf8::valid_utf8(x),
                    None => true,
                }) by {
                    lemma_updatecontact_fields(data@, p1 as int, c, av, bv, cv);
                }
            }
            let xa = match string_from_utf8(a) {
                Some(x) => x,
                None => {
                    return None;
                },
            };
            let xb = match opt_string_from_utf8(b) {
                Some(x) => x,
                None => {
                    return None;
                },
            };
            let xc = match opt_string_from_utf8(cc) {
                Some(x) => x,
                None => {
                    return None;
                },
            };
            let ghost xav = xa@;
            let ghost xbv = opt_view(xb);
            let ghost xcv = opt_view(xc);
            let cmd = RpcCommand::UpdateContact { onion_id: xa, nickname: xb, public_key: xc };
            proof {
                lemma_fld_str_bytes(n_onion_id(), xav);
                lemma_opt_fld_bytes(n_nickname(), xbv);
                lemma_opt_fld_bytes(n_public_key(), xcv);
                assert(opt_text(xbv) == bv);
                assert(opt_text(xcv) == cv);
                assert(cmd_fields(cmd) + seq![125u8] =~= tail_1s2o(
                    n_onion_id(),
                    av,
                    n_nickname(),
                    bv,
                    n_public_key(),
                    cv,
                ));
            }
            Some(cmd)
        },
        None => {
            proof {
                assert forall|c: RpcCommand|
                    c is UpdateContact implies suffix != cmd_fields(c) + seq![125u8] by {
                    if suffix == cmd_fields(c) + seq![125u8] {
                        if let RpcCommand::UpdateContact { onion_id, nickname, public_key } = c {
                            lemma_fld_str_bytes(n_onion_id(), onion_id@);
                            lemma_opt_fld_bytes(n_nickname(), opt_view(nickname));
                            lemma_opt_fld_bytes(n_public_key(), opt_view(public_key));
                            assert(cmd_fields(c) + seq![125u8] =~= tail_1s2o(
                                n_onion_id(),
                                text_bytes(onion_id@),
                                n_nickname(),
                                opt_text(opt_view(nickname)),
                                n_public_key(),
                                opt_text(opt_view(public_key)),
                            ));
                        }
                    }
                }
            }
            None
        },
    }
}

/// Read an `UpdateContact` field tail in the alphabetical key order.
#[verifier::rlimit(100)]
#[verifier::spinoff_prover]
fn uc_from_tail_alpha(data: &Vec<u8>, p1: usize) -> (r: Option<RpcCommand>)
    requires
        p1 <= data@.len(),
    ensures
        match r {
            Some(c) => c is UpdateContact && data@.subrange(p1 as int, data@.len() as int)
                == cmd_fields_alpha(c) + seq![125u8],
            None => forall|c: RpcCommand|
                c is UpdateContact ==> data@.subrange(p1 as int, data@.len() as int)
                    != cmd_fields_alpha(c) + seq![125u8],
        },
{
    let ghost suffix = data@.subrange(p1 as int, data@.len() as int);
    match parse_tail_o1s1o(
        data,
        p1,
        kv_nickname().as_slice(),
        kv_onion_id().as_slice(),
        kv_public_key().as_slice(),
    ) {
        Some((b, a, cc)) => {
            let ghost av = a@;
            let ghost bv = match &b {
                Some(s) => Some(s@),
                None => None::<Seq<u8>>,
            };
            let ghost cv = match &cc {
                Some(s) => Some(s@),
                None => None::<Seq<u8>>,
            };
            proof {
                assert forall|c: RpcCommand|
                    c is UpdateContact && suffix == cmd_fields_alpha(c) + seq![
                        125u8,
                    ] implies vstd::utf8::valid_utf8(av) && (match bv {
                    Some(x) => vstd::utf8::valid_utf8(x),
                    None => true,
                }) && (match cv {
                    Some(x) => vstd::utf8::valid_utf8(x),
                    None => true,
                }) by {
                    lemma_updatecontact_fields_alpha(data@, p1 as int, c, bv, av, cv);
                }
            }
            let xa = match string_from_utf8(a) {
                Some(x) => x,
                None => {
                    return None;
                },
            };
            let xb = match opt_string_from_utf8(b) {
                Some(x) => x,
                None => {
                    return None;
                },
            };
            let xc = match opt_string_from_utf8(cc) {
                Some(x) => x,
                None => {
                    return None;
                },
            };
            let ghost xav = xa@;
            let ghost xbv = opt_view(xb);
            let ghost xcv = opt_view(xc);
            let cmd = RpcCommand::UpdateContact { onion_id: xa, nickname: xb, public_key: xc };
            proof {
                lemma_fld_str_bytes(n_onion_id(), xav);
                lemma_opt_fld_bytes(n_nickname(), xbv);
                lemma_opt_fld_bytes(n_public_key(), xcv);
                assert(opt_text(xbv) == bv);
                assert(opt_text(xcv) == cv);
                assert(cmd_fields_alpha(cmd) + seq![125u8] =~= tail_o1s1o(
                    n_nickname(),
                    bv,
                    n_onion_id(),
                    av,
                    n_public_key(),
                    cv,
                ));
            }
            Some(cmd)
        },
        None => {
            proof {
                assert forall|c: RpcCommand|
                    c is UpdateContact implies suffix != cmd_fields_alpha(c) + seq![125u8] by {
                    if suffix == cmd_fields_alpha(c) + seq![125u8] {
                        if let RpcCommand::UpdateContact { onion_id, nickname, public_key } = c {
                            lemma_fld_str_bytes(n_onion_id(), onion_id@);
                            lemma_opt_fld_bytes(n_nickname(), opt_view(nickname));
                            lemma_opt_fld_bytes(n_public_key(), opt_view(public_key));
                            assert(cmd_fields_alpha(c) + seq![125u8] =~= tail_o1s1o(
                                n_nickname(),
                                opt_text(opt_view(nickname)),
                                n_onion_id(),
                                text_bytes(onion_id@),
                                n_public_key(),
                                opt_text(opt_view(public_key)),
                            ));
                        }
                    }
                }
            }
            None
        },
    }
}

#[verifier::rlimit(100)]
#[verifier::spinoff_prover]
fn parse_cmd_updatecontact(data: &Vec<u8>, Ghost(nb): Ghost<Seq<u8>>, p1: usize) -> (r: Result<
    RpcCommand,
    RpcError,
>)
    requires
        p1 <= data@.len(),
        data@.subrange(0, 8) == seq![123u8, 34, 99, 109, 100, 34, 58, 34],
        jstring_at(data@, 8, nb, p1 as int),
        nb == cmd_updatecontact(),
    ensures
        match r {
            Ok(c) => data@ == spec_encode_command(c) || data@ == spec_encode_command_alpha(c),
            Err(e) => e is MalformedCommand && forall|c: RpcCommand|
                data@ != spec_encode_command(c) && data@ != spec_encode_command_alpha(c),
        },
{
        proof {
            assert forall|c: RpcCommand|
                data@ == spec_encode_command(c) || data@ == spec_encode_command_alpha(
                    c,
                ) implies (c is UpdateContact && (data@ == spec_encode_command(c) ==> data@.subrange(
                p1 as int,
                data@.len() as int,
            ) == cmd_fields(c) + seq![125u8]) && (data@ == spec_encode_command_alpha(c)
                ==> data@.subrange(p1 as int, data@.len() as int) == cmd_fields_alpha(c) + seq![
                125u8,
            ])) by {
                if data@ == spec_encode_command(c) {
                    lemma_cmd_head(data@, c, cmd_fields(c));
                    lemma_two_jstrings_align(
                        data@,
                        8,
                        nb,
                        p1 as int,
                        cmd_name(c),
                        9 + jescape(cmd_name(c)).len() as int,
                    );
                    lemma_name_determines(c, nb);
                }
                if data@ == spec_encode_command_alpha(c) {
                    lemma_cmd_head(data@, c, cmd_fields_alpha(c));
                    lemma_two_jstrings_align(
                        data@,
                        8,
                        nb,
                        p1 as int,
                        cmd_name(c),
                        9 + jescape(cmd_name(c)).len() as int,
                    );
                    lemma_name_determines(c, nb);
                }
            }
        }
    match uc_from_tail_canon(data, p1) {
        Some(cmd) => {
            proof {
                assert(data@ =~= data@.subrange(0, 8) + (jescape(nb) + seq![34u8])
                    + data@.subrange(p1 as int, data@.len() as int));
                assert(data@ =~= spec_encode_command(cmd));
            }
            Ok(cmd)
        },
        None => {
            match uc_from_tail_alpha(data, p1) {
                Some(cmd) => {
                    proof {
                        assert(data@ =~= data@.subrange(0, 8) + (jescape(nb) + seq![34u8])
                            + data@.subrange(p1 as int, data@.len() as int));
                        assert(data@ =~= spec_encode_command_alpha(cmd));
                    }
                    Ok(cmd)
                },
                None => {
                    proof {
                        assert forall|c: RpcCommand|
                            data@ != spec_encode_command(c) && data@
                                != spec_encode_command_alpha(c) by {}
                    }
                    Err(RpcError::MalformedCommand)
                },
            }
        },
    }
}
/// Read an `UpdateUser` field tail in the canonical key order.
#[verifier::rlimit(100)]
#[verifier::spinoff_prover]
fn uu_from_tail_canon(data: &Vec<u8>, p1: usize) -> (r: Option<RpcCommand>)
    requires
        p1 <= data@.len(),
    ensures
        match r {
            Some(c) => c is UpdateUser && data@.subrange(p1 as int, data@.len() as int)
                == cmd_fields(c) + seq![125u8],
            None => forall|c: RpcCommand|
                c is UpdateUser ==> data@.subrange(p1 as int, data@.len() as int) != cmd_fields(c)
                    + seq![125u8],
        },
{
    let ghost suffix = data@.subrange(p1 as int, data@.len() as int);
    match parse_tail_2opt(data, p1, kv_public_key().as_slice(), kv_private_key().as_slice()) {
        Some((a, b)) => {
            let ghost av = match &a {
                Some(s) => Some(s@),
                None => None::<Seq<u8>>,
            };
            let ghost bv = match &b {
                Some(s) => Some(s@),
                None => None::<Seq<u8>>,
            };
            proof {
                assert(tail_2o(n_public_key(), av, n_private_key(), bv) =~= ofld_bytes(
                    n_public_key(),
                    av,
                ) + (ofld_bytes(n_private_key(), bv) + seq![125u8]));
                assert forall|c: RpcCommand|
                    c is UpdateUser && suffix == cmd_fields(c) + seq![125u8] implies (match av {
                    Some(x) => vstd::utf8::valid_utf8(x),
                    None => true,
                }) && (match bv {
                    Some(x) => vstd::utf8::valid_utf8(x),
                    None => true,
                }) by {
                    if let RpcCommand::UpdateUser { public_key, private_key } = c {
                        lemma_opt_fld_bytes(n_public_key(), opt_view(public_key));
                        lemma_opt_fld_bytes(n_private_key(), opt_view(private_key));
                        assert(cmd_fields(c) + seq![125u8] =~= ofld_bytes(
                            n_public_key(),
                            opt_text(opt_view(public_key)),
                        ) + (ofld_bytes(n_private_key(), opt_text(opt_view(private_key))) + seq![
                            125u8,
                        ]));
                        lemma_ofld_tail_unique(
                            n_public_key(),
                            av,
                            ofld_bytes(n_private_key(), bv) + seq![125u8],
                            opt_text(opt_view(public_key)),
                            ofld_bytes(n_private_key(), opt_text(opt_view(private_key))) + seq![
                                125u8,
                            ],
                        );
                        lemma_ofld_tail_unique(
                            n_private_key(),
                            bv,
                            seq![125u8],
                            opt_text(opt_view(private_key)),
                            seq![125u8],
                        );
                        lemma_opt_text_valid(opt_view(public_key));
                        lemma_opt_text_valid(opt_view(private_key));
                    }
                }
            }
            let xa = match opt_string_from_utf8(a) {
                Some(x) => x,
                None => {
                    return None;
                },
            };
            let xb = match opt_string_from_utf8(b) {
                Some(x) => x,
                None => {
                    return None;
                },
            };
            let ghost xav = opt_view(xa);
            let ghost xbv = opt_view(xb);
            let cmd = RpcCommand::UpdateUser { public_key: xa, private_key: xb };
            proof {
                lemma_opt_fld_bytes(n_public_key(), xav);
                lemma_opt_fld_bytes(n_private_key(), xbv);
                assert(opt_text(xav) == av);
                assert(opt_text(xbv) == bv);
                assert(cmd_fields(cmd) + seq![125u8] =~= tail_2o(
                    n_public_key(),
                    av,
                    n_private_key(),
                    bv,
                ));
            }
            Some(cmd)
        },
        None => {
            proof {
                assert forall|c: RpcCommand|
                    c is UpdateUser implies suffix != cmd_fields(c) + seq![125u8] by {
                    if suffix == cmd_fields(c) + seq![125u8] {
                        if let RpcCommand::UpdateUser { public_key, private_key } = c {
                            lemma_opt_fld_bytes(n_public_key(), opt_view(public_key));
                            lemma_opt_fld_bytes(n_private_key(), opt_view(private_key));
                            assert(cmd_fields(c) + seq![125u8] =~= tail_2o(
                                n_public_key(),
                                opt_text(opt_view(public_key)),
                                n_private_key(),
                                opt_text(opt_view(private_key)),
                            ));
                        }
                    }
                }
            }
            None
        },
    }
}

/// Read an `UpdateUser` field tail in the alphabetical key order.
#[verifier::rlimit(100)]
#[verifier::spinoff_prover]
fn uu_from_tail_alpha(data: &Vec<u8>, p1: usize) -> (r: Option<RpcCommand>)
    requires
        p1 <= data@.len(),
    ensures
        match r {
            Some(c) => c is UpdateUser && data@.subrange(p1 as int, data@.len() as int)
                == cmd_fields_alpha(c) + seq![125u8],
            None => forall|c: RpcCommand|
                c is UpdateUser ==> data@.subrange(p1 as int, data@.len() as int)
                    != cmd_fields_alpha(c) + seq![125u8],
        },
{
    let ghost suffix = data@.subrange(p1 as int, data@.len() as int);
    match parse_tail_2opt(data, p1, kv_private_key().as_slice(), kv_public_key().as_slice()) {
        Some((b, a)) => {
            let ghost av = match &b {
                Some(s) => Some(s@),
                None => None::<Seq<u8>>,
            };
            let ghost bv = match &a {
                Some(s) => Some(s@),
                None => None::<Seq<u8>>,
            };
            proof {
                assert(tail_2o(n_private_key(), av, n_public_key(), bv) =~= ofld_bytes(
                    n_private_key(),
                    av,
                ) + (ofld_bytes(n_public_key(), bv) + seq![125u8]));
                assert forall|c: RpcCommand|
                    c is UpdateUser && suffix == cmd_fields_alpha(c) + seq![
                        125u8,
                    ] implies (match av {
                    Some(x) => vstd::utf8::valid_utf8(x),
                    None => true,
                }) && (match bv {
                    Some(x) => vstd::utf8::valid_utf8(x),
                    None => true,
                }) by {
                    if let RpcCommand::UpdateUser { public_key, private_key } = c {
                        lemma_opt_fld_bytes(n_public_key(), opt_view(public_key));
                        lemma_opt_fld_bytes(n_private_key(), opt_view(private_key));
                        assert(cmd_fields_alpha(c) + seq![125u8] =~= ofld_bytes(
                            n_private_key(),
                            opt_text(opt_view(private_key)),
                        ) + (ofld_bytes(n_public_key(), opt_text(opt_view(public_key))) + seq![
                            125u8,
                        ]));
                        lemma_ofld_tail_unique(
                            n_private_key(),
                            av,
                            ofld_bytes(n_public_key(), bv) + seq![125u8],
                            opt_text(opt_view(private_key)),
                            ofld_bytes(n_public_key(), opt_text(opt_view(public_key))) + seq![
                                125u8,
                            ],
                        );
                        lemma_ofld_tail_unique(
                            n_public_key(),
                            bv,
                            seq![125u8],
                            opt_text(opt_view(public_key)),
                            seq![125u8],
                        );
                        lemma_opt_text_valid(opt_view(public_key));
                        lemma_opt_text_valid(opt_view(private_key));
                    }
                }
            }
            let xb = match opt_string_from_utf8(b) {
                Some(x) => x,
                None => {
                    return None;
                },
            };
            let xa = match opt_string_from_utf8(a) {
                Some(x) => x,
                None => {
                    return None;
                },
            };
            let ghost xav = opt_view(xa);
            let ghost xbv = opt_view(xb);
            let cmd = RpcCommand::UpdateUser { public_key: xa, private_key: xb };
            proof {
                lemma_opt_fld_bytes(n_public_key(), xav);
                lemma_opt_fld_bytes(n_private_key(), xbv);
                assert(opt_text(xbv) == av);
                assert(opt_text(xav) == bv);
                assert(cmd_fields_alpha(cmd) + seq![125u8] =~= tail_2o(
                    n_private_key(),
                    av,
                    n_public_key(),
                    bv,
                ));
            }
            Some(cmd)
        },
        None => {
            proof {
                assert forall|c: RpcCommand|
                    c is UpdateUser implies suffix != cmd_fields_alpha(c) + seq![125u8] by {
                    if suffix == cmd_fields_alpha(c) + seq![125u8] {
                        if let RpcCommand::UpdateUser { public_key, private_key } = c {
                            lemma_opt_fld_bytes(n_public_key(), opt_view(public_key));
                            lemma_opt_fld_bytes(n_private_key(), opt_view(private_key));
                            assert(cmd_fields_alpha(c) + seq![125u8] =~= tail_2o(
                                n_private_key(),
                                opt_text(opt_view(private_key)),
                                n_public_key(),
                                opt_text(opt_view(public_key)),
                            ));
                        }
                    }
                }
            }
            None
        },
    }
}

#[verifier::rlimit(100)]
#[verifier::spinoff_prover]
fn parse_cmd_updateuser(data: &Vec<u8>, Ghost(nb): Ghost<Seq<u8>>, p1: usize) -> (r: Result<
    RpcCommand,
    RpcError,
>)
    requires
        p1 <= data@.len(),
        data@.subrange(0, 8) == seq![123u8, 34, 99, 109, 100, 34, 58, 34],
        jstring_at(data@, 8, nb, p1 as int),
        nb == cmd_updateuser(),
    ensures
        match r {
            Ok(c) => data@ == spec_encode_command(c) || data@ == spec_encode_command_alpha(c),
            Err(e) => e is MalformedCommand && forall|c: RpcCommand|
                data@ != spec_encode_command(c) && data@ != spec_encode_command_alpha(c),
        },
{
        proof {
            assert forall|c: RpcCommand|
                data@ == spec_encode_command(c) || data@ == spec_encode_command_alpha(
                    c,
                ) implies (c is UpdateUser && (data@ == spec_encode_command(c) ==> data@.subrange(
                p1 as int,
                data@.len() as int,
            ) == cmd_fields(c) + seq![125u8]) && (data@ == spec_encode_command_alpha(c)
                ==> data@.subrange(p1 as int, data@.len() as int) == cmd_fields_alpha(c) + seq![
                125u8,
            ])) by {
                if data@ == spec_encode_command(c) {
                    lemma_cmd_head(data@, c, cmd_fields(c));
                    lemma_two_jstrings_align(
                        data@,
                        8,
                        nb,
                        p1 as int,
                        cmd_name(c),
                        9 + jescape(cmd_name(c)).len() as int,
                    );
                    lemma_name_determines(c, nb);
                }
                if data@ == spec_encode_command_alpha(c) {
                    lemma_cmd_head(data@, c, cmd_fields_alpha(c));
                    lemma_two_jstrings_align(
                        data@,
                        8,
                        nb,
                        p1 as int,
                        cmd_name(c),
                        9 + jescape(cmd_name(c)).len() as int,
                    );
                    lemma_name_determines(c, nb);
                }
            }
        }
    match uu_from_tail_canon(data, p1) {
        Some(cmd) => {
            proof {
                assert(data@ =~= data@.subrange(0, 8) + (jescape(nb) + seq![34u8])
                    + data@.subrange(p1 as int, data@.len() as int));
                assert(data@ =~= spec_encode_command(cmd));
            }
            Ok(cmd)
        },
        None => {
            match uu_from_tail_alpha(data, p1) {
                Some(cmd) => {
                    proof {
                        assert(data@ =~= data@.subrange(0, 8) + (jescape(nb) + seq![34u8])
                            + data@.subrange(p1 as int, data@.len() as int));
                        assert(data@ =~= spec_encode_command_alpha(cmd));
                    }
                    Ok(cmd)
                },
                None => {
                    proof {
                        assert forall|c: RpcCommand|
                            data@ != spec_encode_command(c) && data@
                                != spec_encode_command_alpha(c) by {}
                    }
                    Err(RpcError::MalformedCommand)
                },
            }
        },
    }
}
pub fn parse_command(data: &Vec<u8>) -> (r: Result<RpcCommand, RpcError>)
    ensures
        match r {
            Ok(c) => data@ == spec_encode_command(c) || data@ == spec_encode_command_alpha(c),
            Err(e) => e is MalformedCommand && forall|c: RpcCommand|
                data@ != spec_encode_command(c) && data@ != spec_encode_command_alpha(c),
        },
{
    let hd: Vec<u8> = vec![123u8, 34, 99, 109, 100, 34, 58, 34];
    proof {
        assert(hd@ =~= seq![123u8, 34, 99, 109, 100, 34, 58, 34]);
    }
    let p0 = match match_lit(data, 0, hd.as_slice()) {
        Some(p) => p,
        None => {
            proof {
                assert forall|c: RpcCommand| data@ != spec_encode_command(c) && data@
                        != spec_encode_command_alpha(c) by {
                    if data@ == spec_encode_command(c) {
                        lemma_cmd_head(data@, c, cmd_fields(c));
                        assert(data@.subrange(0, 8) =~= hd@);
                    }
                    if data@ == spec_encode_command_alpha(c) {
                        lemma_alpha_same(c);
                        lemma_cmd_head(data@, c, cmd_fields_alpha(c));
                        assert(data@.subrange(0, 8) =~= hd@);
                    }
                }
            }
            return Err(RpcError::MalformedCommand);
        },
    };
    let (nb, p1) = match parse_jstring(data, p0) {
        Some(p) => p,
        None => {
            proof {
                assert forall|c: RpcCommand| data@ != spec_encode_command(c) && data@
                        != spec_encode_command_alpha(c) by {
                    if data@ == spec_encode_command(c) {
                        lemma_cmd_head(data@, c, cmd_fields(c));
                    }
                    if data@ == spec_encode_command_alpha(c) {
                        lemma_alpha_same(c);
                        lemma_cmd_head(data@, c, cmd_fields_alpha(c));
                    }
                }
            }
            return Err(RpcError::MalformedCommand);
        },
    };
    if bytes_eq(nb.as_slice(), kv_cmd_loadcontacts().as_slice()) {
        return parse_cmd_loadcontacts(data, Ghost(nb@), p1);
    }
    if bytes_eq(nb.as_slice(), kv_cmd_loaduser().as_slice()) {
        return parse_cmd_loaduser(data, Ghost(nb@), p1);
    }
    if bytes_eq(nb.as_slice(), kv_cmd_deleteallcontacts().as_slice()) {
        return parse_cmd_deleteallcontacts(data, Ghost(nb@), p1);
    }
    if bytes_eq(nb.as_slice(), kv_cmd_resettorcircuit().as_slice()) {
        return parse_cmd_resettorcircuit(data, Ghost(nb@), p1);
    }
    if bytes_eq(nb.as_slice(), kv_cmd_pinghiddenservice().as_slice()) {
        return parse_cmd_pinghiddenservice(data, Ghost(nb@), p1);
    }
    if bytes_eq(nb.as_slice(), kv_cmd_pingdaemon().as_slice()) {
        return parse_cmd_pingdaemon(data, Ghost(nb@), p1);
    }
    if bytes_eq(nb.as_slice(), kv_cmd_loadchat().as_slice()) {
        return parse_cmd_loadchat(data, Ghost(nb@), p1);
    }
    if bytes_eq(nb.as_slice(), kv_cmd_deletecontactmessages().as_slice()) {
        return parse_cmd_deletecontactmessages(data, Ghost(nb@), p1);
    }
    if bytes_eq(nb.as_slice(), kv_cmd_deletecontact().as_slice()) {
        return parse_cmd_deletecontact(data, Ghost(nb@), p1);
    }
    if bytes_eq(nb.as_slice(), kv_cmd_getconfigvalue().as_slice()) {
        return parse_cmd_getconfigvalue(data, Ghost(nb@), p1);
    }
    if bytes_eq(nb.as_slice(), kv_cmd_sendmessage().as_slice()) {
        return parse_cmd_sendmessage(data, Ghost(nb@), p1);
    }
    if bytes_eq(nb.as_slice(), kv_cmd_setconfigvalue().as_slice()) {
        return parse_cmd_setconfigvalue(data, Ghost(nb@), p1);
    }
    if bytes_eq(nb.as_slice(), kv_cmd_addcontact().as_slice()) {
        return parse_cmd_addcontact(data, Ghost(nb@), p1);
    }
    if bytes_eq(nb.as_slice(), kv_cmd_sendappfocusstate().as_slice()) {
        return parse_cmd_sendappfocusstate(data, Ghost(nb@), p1);
    }
    if bytes_eq(nb.as_slice(), kv_cmd_updatecontact().as_slice()) {
        return parse_cmd_updatecontact(data, Ghost(nb@), p1);
    }
    if bytes_eq(nb.as_slice(), kv_cmd_updateuser().as_slice()) {
        return parse_cmd_updateuser(data, Ghost(nb@), p1);
    }
    proof {
        assert forall|c: RpcCommand| data@ != spec_encode_command(c) && data@
                        != spec_encode_command_alpha(c) by {
            if data@ == spec_encode_command(c) {
                lemma_cmd_head(data@, c, cmd_fields(c));
                lemma_two_jstrings_align(
                    data@,
                    8,
                    nb@,
                    p1 as int,
                    cmd_name(c),
                    9 + jescape(cmd_name(c)).len() as int,
                );
                match c {
                            RpcCommand::LoadContacts => {
                                assert(nb@ == cmd_loadcontacts());
                            },
                            RpcCommand::LoadChat { .. } => {
                                assert(nb@ == cmd_loadchat());
                            },
                            RpcCommand::SendMessage { .. } => {
                                assert(nb@ == cmd_sendmessage());
                            },
                            RpcCommand::AddContact { .. } => {
                                assert(nb@ == cmd_addcontact());
                            },
                            RpcCommand::UpdateContact { .. } => {
                                assert(nb@ == cmd_updatecontact());
                            },
                            RpcCommand::LoadUser => {
                                assert(nb@ == cmd_loaduser());
                            },
                            RpcCommand::UpdateUser { .. } => {
                                assert(nb@ == cmd_updateuser());
                            },
                            RpcCommand::DeleteContactMessages { .. } => {
                                assert(nb@ == cmd_deletecontactmessages());
                            },
                            RpcCommand::DeleteContact { .. } => {
                                assert(nb@ == cmd_deletecontact());
                            },
                            RpcCommand::DeleteAllContacts => {
                                assert(nb@ == cmd_deleteallcontacts());
                            },
                            RpcCommand::ResetTorCircuit => {
                                assert(nb@ == cmd_resettorcircuit());
                            },
                            RpcCommand::SendAppFocusState { .. } => {
                                assert(nb@ == cmd_sendappfocusstate());
                            },
                            RpcCommand::GetConfigValue { .. } => {
                                assert(nb@ == cmd_getconfigvalue());
                            },
                            RpcCommand::SetConfigValue { .. } => {
                                assert(nb@ == cmd_setconfigvalue());
                            },
                            RpcCommand::PingHiddenService => {
                                assert(nb@ == cmd_pinghiddenservice());
                            },
                            RpcCommand::PingDaemon => {
                                assert(nb@ == cmd_pingdaemon());
                            },
                }
            }
            if data@ == spec_encode_command_alpha(c) {
                lemma_alpha_same(c);
                lemma_cmd_head(data@, c, cmd_fields_alpha(c));
                lemma_two_jstrings_align(
                    data@,
                    8,
                    nb@,
                    p1 as int,
                    cmd_name(c),
                    9 + jescape(cmd_name(c)).len() as int,
                );
                match c {
                            RpcCommand::LoadContacts => {
                                assert(nb@ == cmd_loadcontacts());
                            },
                            RpcCommand::LoadChat { .. } => {
                                assert(nb@ == cmd_loadchat());
                            },
                            RpcCommand::SendMessage { .. } => {
                                assert(nb@ == cmd_sendmessage());
                            },
                            RpcCommand::AddContact { .. } => {
                                assert(nb@ == cmd_addcontact());
                            },
                            RpcCommand::UpdateContact { .. } => {
                                assert(nb@ == cmd_updatecontact());
                            },
                            RpcCommand::LoadUser => {
                                assert(nb@ == cmd_loaduser());
                            },
                            RpcCommand::UpdateUser { .. } => {
                                assert(nb@ == cmd_updateuser());
                            },
                            RpcCommand::DeleteContactMessages { .. } => {
                                assert(nb@ == cmd_deletecontactmessages());
                            },
                            RpcCommand::DeleteContact { .. } => {
                                assert(nb@ == cmd_deletecontact());
                            },
                            RpcCommand::DeleteAllContacts => {
                                assert(nb@ == cmd_deleteallcontacts());
                            },
                            RpcCommand::ResetTorCircuit => {
                                assert(nb@ == cmd_resettorcircuit());
                            },
                            RpcCommand::SendAppFocusState { .. } => {
                                assert(nb@ == cmd_sendappfocusstate());
                            },
                            RpcCommand::GetConfigValue { .. } => {
                                assert(nb@ == cmd_getconfigvalue());
                            },
                            RpcCommand::SetConfigValue { .. } => {
                                assert(nb@ == cmd_setconfigvalue());
                            },
                            RpcCommand::PingHiddenService => {
                                assert(nb@ == cmd_pinghiddenservice());
                            },
                            RpcCommand::PingDaemon => {
                                assert(nb@ == cmd_pingdaemon());
                            },
                }
            }
        }
    }
    Err(RpcError::MalformedCommand)
}

// --- Routing ---

/// Work the surrounding process must perform for a routed command.
pub enum RouteAction {
    /// Open a stream to the peer and write the framed payload; then report
    /// the result to the dispatcher's send follow-up with this row id.
    SendPayload {
        /// The receiving peer.
        to: String,
        /// The framed signed wire bytes.
        frame: Vec<u8>,
        /// Row id of the stored outbound message.
        message_id: i64,
    },
    /// Replace the overlay client by a fresh isolation-group clone; reply
    /// with a success line afterwards.
    ResetCircuit,
    /// Probe the own hidden service for reachability; reply with a success
    /// line afterwards.
    ProbeHiddenService,
}

/// What routing one command decided.
pub struct RouteOutcome {
    /// Reply line for the RPC connection, when one is owed now.
    pub reply: Option<Vec<u8>>,
    /// Line to push to every broadcast subscriber.
    pub broadcast: Option<Vec<u8>>,
    /// Outside work still to do.
    pub action: Option<RouteAction>,
}

/// Dispatch one parsed command against the store. Commands whose work must
/// leave the process — a peer send, a circuit reset, a reachability probe —
/// come back as an action; everything else is done and answered here.
#[verifier::rlimit(100)]
#[verifier::spinoff_prover]
pub fn route(
    cmd: &RpcCommand,
    store: &mut Store,
    focus: &mut FocusState,
    secret: &[u8; 32],
    self_onion_id: &str,
    now: i64,
) -> (out: RouteOutcome)
    requires
        old(store).wf(),
        0 <= now < DEC_LIMIT,
    ensures
        final(store).wf(),
        match cmd {
            RpcCommand::SendAppFocusState { focussed } => final(focus).focussed == *focussed,
            _ => *final(focus) == *old(focus),
        },
        match cmd {
            RpcCommand::LoadContacts => {
                &&& *final(store) == *old(store)
                &&& out.broadcast is None
                &&& out.action is None
                &&& out.reply matches Some(reply) && exists|cs: Seq<Contact>|
                    {
                        &&& sorted_by_activity_desc(cs)
                        &&& cs.to_multiset() == old(store).contacts@.map_values(
                            (|c: ContactDb| crate::db::spec_contact_overview(
                                old(store).messages@,
                                c,
                            )),
                        ).to_multiset()
                        &&& reply@ == spec_contacts_reply(cs)
                    }
            },
            RpcCommand::LoadChat { onion_id } => {
                &&& final(store).users@ == old(store).users@
                &&& final(store).messages@ == old(store).messages@
                &&& final(store).config@ == old(store).config@
                &&& final(store).next_message_id == old(store).next_message_id
                &&& final(store).contacts@.len() == old(store).contacts@.len()
                &&& forall|i: int|
                    0 <= i < old(store).contacts@.len() ==> final(store).contacts@[i] == (if old(
                        store,
                    ).contacts@[i].onion_id@ == onion_id@ {
                        (ContactDb {
                            onion_id: old(store).contacts@[i].onion_id,
                            nickname: old(store).contacts@[i].nickname,
                            public_key: old(store).contacts@[i].public_key,
                            last_viewed_at: now,
                        })
                    } else {
                        old(store).contacts@[i]
                    })
                &&& out.broadcast is None
                &&& out.action is None
                &&& out.reply matches Some(reply) && exists|ms: Seq<MessageDb>|
                    {
                        &&& sorted_by_timestamp_desc(ms)
                        &&& ms.to_multiset() == crate::db::filtered(
                            old(store).messages@,
                            crate::db::chat_pred(onion_id@),
                        ).to_multiset()
                        &&& reply@ == spec_messages_reply(ms)
                    }
            },
            RpcCommand::SendMessage { to, text } => {
                &&& out.broadcast is None
                &&& if contains_contact(old(store).contacts@, to@) && old(store).next_message_id
                    < i64::MAX {
                    &&& final(store).messages@.len() == old(store).messages@.len() + 1
                    &&& final(store).messages@.drop_last() == old(store).messages@
                    &&& final(store).messages@.last().contact_onion_id@ == to@
                    &&& final(store).messages@.last().body@ == text@
                    &&& final(store).messages@.last().timestamp == now
                    &&& !final(store).messages@.last().is_incoming
                    &&& !final(store).messages@.last().sent_status
                    &&& final(store).messages@.last().id == old(store).next_message_id
                    &&& final(store).users@ == old(store).users@
                    &&& final(store).contacts@ == old(store).contacts@
                    &&& final(store).config@ == old(store).config@
                    &&& out.reply is None
                    &&& out.action matches Some(a) && a matches RouteAction::SendPayload {
                        to: dest,
                        frame,
                        message_id,
                    } && dest@ == to@ && message_id == old(store).next_message_id && frame@
                        == crate::frame::spec_frame(
                        crate::message::spec_signed_envelope(
                            text_bytes(self_onion_id@),
                            text_bytes(text@),
                            now as nat,
                            crate::crypto::ed25519_signature(
                                secret@,
                                spec_payload_json(
                                    text_bytes(self_onion_id@),
                                    text_bytes(text@),
                                    now as nat,
                                ),
                            ),
                        ),
                    )
                } else {
                    &&& *final(store) == *old(store)
                    &&& out.action is None
                    &&& out.reply matches Some(reply) && (reply@ == spec_error_reply(
                        spec_rpc_error_message(
                            RpcError::DatabaseError(DatabaseError::ForeignKeyMissing),
                        ),
                    ) || reply@ == spec_error_reply(
                        spec_rpc_error_message(RpcError::DatabaseError(DatabaseError::IdExhausted)),
                    ))
                }
            },
            RpcCommand::AddContact { nickname, onion_id, public_key } => {
                &&& out.broadcast is None
                &&& out.action is None
                &&& out.reply matches Some(reply) && reply@ == spec_success_reply(
                    !contains_contact(old(store).contacts@, onion_id@),
                )
                &&& if !contains_contact(old(store).contacts@, onion_id@) {
                    &&& final(store).contacts@.len() == old(store).contacts@.len() + 1
                    &&& final(store).contacts@.drop_last() == old(store).contacts@
                    &&& final(store).contacts@.last().onion_id@ == onion_id@
                    &&& final(store).contacts@.last().nickname@ == nickname@
                    &&& final(store).contacts@.last().public_key@ == public_key@
                    &&& final(store).contacts@.last().last_viewed_at == now
                    &&& final(store).users@ == old(store).users@
                    &&& final(store).messages@ == old(store).messages@
                    &&& final(store).config@ == old(store).config@
                    &&& final(store).next_message_id == old(store).next_message_id
                } else {
                    *final(store) == *old(store)
                }
            },
            RpcCommand::UpdateContact { onion_id, nickname, public_key } => {
                &&& out.broadcast is None
                &&& out.action is None
                &&& out.reply matches Some(reply) && reply@ == spec_success_reply(true)
                &&& final(store).contacts@.len() == old(store).contacts@.len()
                &&& forall|i: int|
                    0 <= i < old(store).contacts@.len() ==> final(store).contacts@[i] == (if old(
                        store,
                    ).contacts@[i].onion_id@ == onion_id@ {
                        (ContactDb {
                            onion_id: old(store).contacts@[i].onion_id,
                            nickname: (match nickname {
                                Some(n) => *n,
                                None => old(store).contacts@[i].nickname,
                            }),
                            public_key: (match public_key {
                                Some(k) => *k,
                                None => old(store).contacts@[i].public_key,
                            }),
                            last_viewed_at: old(store).contacts@[i].last_viewed_at,
                        })
                    } else {
                        old(store).contacts@[i]
                    })
                &&& final(store).users@ == old(store).users@
                &&& final(store).messages@ == old(store).messages@
                &&& final(store).config@ == old(store).config@
                &&& final(store).next_message_id == old(store).next_message_id
            },
            RpcCommand::LoadUser => {
                &&& *final(store) == *old(store)
                &&& out.broadcast is None
                &&& out.action is None
                &&& out.reply matches Some(reply) && if contains_user(
                    old(store).users@,
                    self_onion_id@,
                ) {
                    exists|u: UserDb|
                        old(store).users@.contains(u) && u.onion_id@ == self_onion_id@ && reply@
                            == spec_user_reply(u)
                } else {
                    reply@ == spec_error_reply(
                        spec_rpc_error_message(RpcError::DatabaseError(DatabaseError::NotFound)),
                    )
                }
            },
            RpcCommand::UpdateUser { public_key, private_key } => {
                &&& out.broadcast is None
                &&& out.action is None
                &&& out.reply matches Some(reply) && reply@ == spec_success_reply(true)
                &&& final(store).users@.len() == old(store).users@.len()
                &&& forall|i: int|
                    0 <= i < old(store).users@.len() ==> final(store).users@[i] == (if old(
                        store,
                    ).users@[i].onion_id@ == self_onion_id@ {
                        (UserDb {
                            onion_id: old(store).users@[i].onion_id,
                            nickname: old(store).users@[i].nickname,
                            public_key: (match public_key {
                                Some(k) => *k,
                                None => old(store).users@[i].public_key,
                            }),
                            private_key: (match private_key {
                                Some(k) => *k,
                                None => old(store).users@[i].private_key,
                            }),
                        })
                    } else {
                        old(store).users@[i]
                    })
                &&& final(store).contacts@ == old(store).contacts@
                &&& final(store).messages@ == old(store).messages@
                &&& final(store).config@ == old(store).config@
                &&& final(store).next_message_id == old(store).next_message_id
            },
            RpcCommand::DeleteContactMessages { onion_id } => {
                &&& out.broadcast is None
                &&& out.action is None
                &&& out.reply matches Some(reply) && reply@ == spec_success_reply(true)
                &&& final(store).messages@ == Store::spec_messages_without(
                    old(store).messages@,
                    onion_id@,
                )
                &&& final(store).users@ == old(store).users@
                &&& final(store).contacts@ == old(store).contacts@
                &&& final(store).config@ == old(store).config@
                &&& final(store).next_message_id == old(store).next_message_id
            },
            RpcCommand::DeleteContact { onion_id } => {
                &&& out.broadcast is None
                &&& out.action is None
                &&& out.reply matches Some(reply) && reply@ == spec_success_reply(true)
                &&& final(store).contacts@ == crate::db::filtered(
                    old(store).contacts@,
                    (|c: ContactDb| c.onion_id@ != onion_id@),
                )
                &&& !contains_contact(final(store).contacts@, onion_id@)
                &&& final(store).messages@ == Store::spec_messages_without(
                    old(store).messages@,
                    onion_id@,
                )
                &&& forall|i: int|
                    0 <= i < final(store).messages@.len() ==> (#[trigger] final(store).messages@[i]).contact_onion_id@ != onion_id@
                &&& final(store).users@ == old(store).users@
                &&& final(store).config@ == old(store).config@
                &&& final(store).next_message_id == old(store).next_message_id
            },
            RpcCommand::DeleteAllContacts => {
                &&& out.broadcast is None
                &&& out.action is None
                &&& out.reply matches Some(reply) && reply@ == spec_success_reply(true)
                &&& final(store).contacts@ == Seq::<ContactDb>::empty()
                &&& final(store).messages@ == Seq::<MessageDb>::empty()
                &&& final(store).users@ == old(store).users@
                &&& final(store).config@ == old(store).config@
            },
            RpcCommand::ResetTorCircuit => {
                &&& *final(store) == *old(store)
                &&& out.reply is None
                &&& out.broadcast is None
                &&& out.action matches Some(a) && a is ResetCircuit
            },
            RpcCommand::SendAppFocusState { .. } => {
                &&& *final(store) == *old(store)
                &&& out.reply is None
                &&& out.broadcast is None
                &&& out.action is None
            },
            RpcCommand::GetConfigValue { key } => {
                &&& *final(store) == *old(store)
                &&& out.broadcast is None
                &&& out.action is None
                &&& out.reply matches Some(reply) && (match Store::spec_config_lookup(
                    old(store).config@,
                    key@,
                ) {
                    Some(v) => reply@ == spec_value_reply(v),
                    None => reply@ == spec_error_reply(
                        spec_rpc_error_message(RpcError::ConfigError(ConfigError::UnknownKey)),
                    ),
                })
            },
            RpcCommand::SetConfigValue { key, value } => {
                &&& out.broadcast is None
                &&& out.action is None
                &&& final(store).users@ == old(store).users@
                &&& final(store).contacts@ == old(store).contacts@
                &&& final(store).messages@ == old(store).messages@
                &&& final(store).next_message_id == old(store).next_message_id
                &&& if crate::db::is_config_key(key@) {
                    &&& out.reply is None
                    &&& Store::spec_config_lookup(final(store).config@, key@) == Some(value@)
                    &&& forall|q: Seq<char>|
                        q != key@ ==> #[trigger] Store::spec_config_lookup(final(store).config@, q)
                            == Store::spec_config_lookup(old(store).config@, q)
                } else {
                    &&& *final(store) == *old(store)
                    &&& out.reply matches Some(reply) && reply@ == spec_error_reply(
                        spec_rpc_error_message(RpcError::ConfigError(ConfigError::UnknownKey)),
                    )
                }
            },
            RpcCommand::PingHiddenService => {
                &&& *final(store) == *old(store)
                &&& out.reply is None
                &&& out.broadcast is None
                &&& out.action matches Some(a) && a is ProbeHiddenService
            },
            RpcCommand::PingDaemon => {
                &&& *final(store) == *old(store)
                &&& out.broadcast is None
                &&& out.action is None
                &&& out.reply matches Some(reply) && reply@ == spec_success_reply(true)
            },
        },
{
    match cmd {
        RpcCommand::LoadContacts => {
            let cs = store.contacts_with_unread();
            proof {
                let mapped = store.contacts@.map_values(
                    |c: ContactDb| crate::db::spec_contact_overview(store.messages@, c),
                );
                assert forall|i: int|
                    0 <= i < cs@.len() implies (#[trigger] cs@[i]).last_message_at >= 0
                    && cs@[i].last_viewed_at >= 0 by {
                    cs@.to_multiset_ensures();
                    mapped.to_multiset_ensures();
                    assert(cs@.contains(cs@[i]));
                    assert(cs@.to_multiset().count(cs@[i]) > 0);
                    assert(mapped.contains(cs@[i]));
                    let k = choose|k: int| 0 <= k < mapped.len() && mapped[k] == cs@[i];
                    assert(mapped[k] == crate::db::spec_contact_overview(
                        store.messages@,
                        store.contacts@[k],
                    ));
                    crate::db::lemma_last_message_at_nonneg(
                        store.messages@,
                        store.contacts@[k].onion_id@,
                    );
                }
            }
            let reply = contacts_reply(&cs);
            RouteOutcome { reply: Some(reply), broadcast: None, action: None }
        },
        RpcCommand::LoadChat { onion_id } => {
            let ms = store.messages_with(onion_id.as_str(), now);
            proof {
                let from = crate::db::filtered(
                    old(store).messages@,
                    crate::db::chat_pred(onion_id@),
                );
                assert forall|i: int|
                    0 <= i < ms@.len() implies (#[trigger] ms@[i]).id >= 0 && ms@[i].timestamp
                    >= 0 by {
                    ms@.to_multiset_ensures();
                    from.to_multiset_ensures();
                    assert(ms@.contains(ms@[i]));
                    assert(ms@.to_multiset().count(ms@[i]) > 0);
                    assert(from.contains(ms@[i]));
                    crate::db::lemma_filtered_all(
                        old(store).messages@,
                        crate::db::chat_pred(onion_id@),
                    );
                    let k = choose|k: int| 0 <= k < from.len() && from[k] == ms@[i];
                }
            }
            let reply = messages_reply(&ms);
            RouteOutcome { reply: Some(reply), broadcast: None, action: None }
        },
        RpcCommand::SendMessage { to, text } => {
            let row = MessageDb {
                id: 0,
                contact_onion_id: to.clone(),
                body: text.clone(),
                timestamp: now,
                is_incoming: false,
                sent_status: false,
                verified_status: false,
            };
            match store.insert_message(row) {
                Ok(iid) => {
                    let message_id = match iid.expect_i64() {
                        Ok(id) => id,
                        Err(_) => {
                            proof {
                                assert(false);
                            }
                            return unreached();
                        },
                    };
                    let frame = build_outbound_frame(secret, self_onion_id, text.as_str(), now);
                    RouteOutcome {
                        reply: None,
                        broadcast: None,
                        action: Some(
                            RouteAction::SendPayload { to: to.clone(), frame, message_id },
                        ),
                    }
                },
                Err(e) => {
                    let err = RpcError::DatabaseError(e);
                    let reply = reply_rpc_error(&err);
                    RouteOutcome { reply: Some(reply), broadcast: None, action: None }
                },
            }
        },
        RpcCommand::AddContact { nickname, onion_id, public_key } => {
            let row = ContactDb {
                onion_id: onion_id.clone(),
                nickname: nickname.clone(),
                public_key: public_key.clone(),
                last_viewed_at: now,
            };
            let success = store.insert_contact(row).is_ok();
            let reply = success_reply(success);
            RouteOutcome { reply: Some(reply), broadcast: None, action: None }
        },
        RpcCommand::UpdateContact { onion_id, nickname, public_key } => {
            let upd = UpdateContactDb {
                onion_id: onion_id.clone(),
                nickname: (match nickname {
                    Some(n) => Some(n.clone()),
                    None => None,
                }),
                public_key: (match public_key {
                    Some(k) => Some(k.clone()),
                    None => None,
                }),
            };
            store.update_contact(&upd);
            let reply = success_reply(true);
            RouteOutcome { reply: Some(reply), broadcast: None, action: None }
        },
        RpcCommand::LoadUser => {
            match store.retrieve_user(self_onion_id) {
                Ok(u) => {
                    let reply = user_reply(&u);
                    proof {
                        assert(contains_user(store.users@, self_onion_id@));
                    }
                    RouteOutcome { reply: Some(reply), broadcast: None, action: None }
                },
                Err(_) => {
                    let err = RpcError::DatabaseError(DatabaseError::NotFound);
                    let reply = reply_rpc_error(&err);
                    RouteOutcome { reply: Some(reply), broadcast: None, action: None }
                },
            }
        },
        RpcCommand::UpdateUser { public_key, private_key } => {
            let upd = UpdateUserDb {
                onion_id: String::from_str(self_onion_id),
                public_key: (match public_key {
                    Some(k) => Some(k.clone()),
                    None => None,
                }),
                private_key: (match private_key {
                    Some(k) => Some(k.clone()),
                    None => None,
                }),
            };
            store.update_user(&upd);
            let reply = success_reply(true);
            RouteOutcome { reply: Some(reply), broadcast: None, action: None }
        },
        RpcCommand::DeleteContactMessages { onion_id } => {
            store.delete_contact_messages(onion_id.as_str());
            let reply = success_reply(true);
            RouteOutcome { reply: Some(reply), broadcast: None, action: None }
        },
        RpcCommand::DeleteContact { onion_id } => {
            store.delete_contact(onion_id.as_str());
            let reply = success_reply(true);
            RouteOutcome { reply: Some(reply), broadcast: None, action: None }
        },
        RpcCommand::DeleteAllContacts => {
            store.delete_all_contacts();
            let reply = success_reply(true);
            RouteOutcome { reply: Some(reply), broadcast: None, action: None }
        },
        RpcCommand::ResetTorCircuit => {
            RouteOutcome { reply: None, broadcast: None, action: Some(RouteAction::ResetCircuit) }
        },
        RpcCommand::SendAppFocusState { focussed } => {
            set_focussed(focus, *focussed);
            RouteOutcome { reply: None, broadcast: None, action: None }
        },
        RpcCommand::GetConfigValue { key } => {
            match store.config_get(key.as_str()) {
                Some(v) => {
                    let reply = value_reply(v.as_str());
                    RouteOutcome { reply: Some(reply), broadcast: None, action: None }
                },
                None => {
                    let err = RpcError::ConfigError(ConfigError::UnknownKey);
                    let reply = reply_rpc_error(&err);
                    RouteOutcome { reply: Some(reply), broadcast: None, action: None }
                },
            }
        },
        RpcCommand::SetConfigValue { key, value } => {
            match store.config_set(key.as_str(), value.as_str()) {
                Ok(()) => RouteOutcome { reply: None, broadcast: None, action: None },
                Err(_) => {
                    let err = RpcError::ConfigError(ConfigError::UnknownKey);
                    let reply = reply_rpc_error(&err);
                    RouteOutcome { reply: Some(reply), broadcast: None, action: None }
                },
            }
        },
        RpcCommand::PingHiddenService => {
            RouteOutcome {
                reply: None,
                broadcast: None,
                action: Some(RouteAction::ProbeHiddenService),
            }
        },
        RpcCommand::PingDaemon => {
            let reply = success_reply(true);
            RouteOutcome { reply: Some(reply), broadcast: None, action: None }
        },
    }
}

} // verus!
