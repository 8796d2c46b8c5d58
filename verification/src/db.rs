//! Persistence facade: typed rows and queries over the relational store.
//!
//! The store holds the four tables of the schema — `user`, `contact`,
//! `message`, `config` — as in-memory vectors with the schema's invariants:
//! textual primary keys are unique, message ids are unique and assigned by a
//! monotone counter, and every message names an existing contact (the foreign
//! key whose deletion cascade removes the messages of a deleted contact).
//! Durable storage of these rows is the embedding process's concern.

use vstd::prelude::*;
use crate::error::{ConfigError, DatabaseError};
use crate::text::str_eq;
use vstd::string::StringExecFns;

verus! {

// --- Generic filtering, used by the queries below ---

/// The elements of `s` that satisfy `p`, in order.
pub open spec fn filtered<A>(s: Seq<A>, p: spec_fn(A) -> bool) -> Seq<A>
    decreases s.len(),
{
    if s.len() == 0 {
        Seq::empty()
    } else if p(s.last()) {
        filtered(s.drop_last(), p).push(s.last())
    } else {
        filtered(s.drop_last(), p)
    }
}

/// Appending one element adds exactly it to what a sequence contains.
pub proof fn lemma_push_contains<A>(s: Seq<A>, y: A, x: A)
    ensures
        s.push(y).contains(x) <==> s.contains(x) || x == y,
{
    if s.push(y).contains(x) {
        let i = choose|i: int| 0 <= i < s.push(y).len() && s.push(y)[i] == x;
        if i < s.len() {
            assert(s[i] == x);
        }
    }
    if s.contains(x) {
        let i = choose|i: int| 0 <= i < s.len() && s[i] == x;
        assert(s.push(y)[i] == x);
    }
    assert(s.push(y)[s.len() as int] == y);
}

/// Membership in a filtered sequence is membership plus the predicate.
pub proof fn lemma_filtered_contains<A>(s: Seq<A>, p: spec_fn(A) -> bool, x: A)
    ensures
        filtered(s, p).contains(x) <==> s.contains(x) && p(x),
    decreases s.len(),
{
    if s.len() > 0 {
        lemma_filtered_contains(s.drop_last(), p, x);
        if p(s.last()) {
            lemma_push_contains(filtered(s.drop_last(), p), s.last(), x);
        }
        assert(s.contains(x) <==> s.drop_last().contains(x) || s.last() == x) by {
            if s.contains(x) {
                let i = choose|i: int| 0 <= i < s.len() && s[i] == x;
                if i < s.len() - 1 {
                    assert(s.drop_last()[i] == x);
                }
            }
            if s.drop_last().contains(x) {
                let i = choose|i: int| 0 <= i < s.drop_last().len() && s.drop_last()[i] == x;
                assert(s[i] == x);
            }
        }
    }
}

/// Every element of a filtered sequence satisfies the predicate and comes
/// from the source.
pub proof fn lemma_filtered_all<A>(s: Seq<A>, p: spec_fn(A) -> bool)
    ensures
        forall|i: int|
            0 <= i < filtered(s, p).len() ==> p(#[trigger] filtered(s, p)[i]) && s.contains(
                filtered(s, p)[i],
            ),
    decreases s.len(),
{
    if s.len() > 0 {
        lemma_filtered_all(s.drop_last(), p);
        assert forall|i: int|
            0 <= i < filtered(s, p).len() implies p(#[trigger] filtered(s, p)[i]) && s.contains(
            filtered(s, p)[i],
        ) by {
            let f = filtered(s, p);
            let fd = filtered(s.drop_last(), p);
            if i < fd.len() {
                assert(f[i] == fd[i]);
                assert(s.drop_last().contains(fd[i]));
                let k = choose|k: int|
                    0 <= k < s.drop_last().len() && s.drop_last()[k] == fd[i];
                assert(s[k] == fd[i]);
            } else {
                assert(f[i] == s.last());
                assert(s[s.len() - 1] == s.last());
            }
        }
    }
}

// --- Keys and identifiers ---

/// Primary key of a row at insert: known up front, or assigned by the store.
pub enum PrimaryKey<'a> {
    /// The caller knows the textual key at insert.
    Provided(&'a str),
    /// The key is an auto-increment integer not known at insert.
    AutoIncrement,
}

/// Key a completed insert reports back: textual or integer.
pub enum InsertId {
    /// Textual primary key.
    Text(String),
    /// Auto-increment integer key.
    Integer(i64),
}

impl InsertId {
    /// The integer form of the key; an error on a textual key.
    pub fn expect_i64(&self) -> (r: Result<i64, DatabaseError>)
        ensures
            match self {
                InsertId::Integer(id) => r == Ok::<i64, DatabaseError>(*id),
                InsertId::Text(_) => r == Err::<i64, DatabaseError>(
                    DatabaseError::InvalidPrimaryKeyType,
                ),
            },
    {
        match self {
            InsertId::Integer(id) => Ok(*id),
            InsertId::Text(_) => Err(DatabaseError::InvalidPrimaryKeyType),
        }
    }
}

// --- Rows ---

/// Row of the `user` table.
pub struct UserDb {
    /// Column `onion_id`: the hidden-service address, the primary key.
    pub onion_id: String,
    /// Column `nickname`.
    pub nickname: String,
    /// Column `private_key`: hex-encoded signing key.
    pub private_key: String,
    /// Column `public_key`: hex-encoded verifying key.
    pub public_key: String,
}

impl UserDb {
    /// An owned copy of the row.
    pub fn duplicate(&self) -> (r: UserDb)
        ensures
            r == *self,
    {
        UserDb {
            onion_id: self.onion_id.clone(),
            nickname: self.nickname.clone(),
            private_key: self.private_key.clone(),
            public_key: self.public_key.clone(),
        }
    }

    /// The primary key of this row, known at insert.
    pub fn primary_key<'a>(&'a self) -> (r: PrimaryKey<'a>)
        ensures
            r matches PrimaryKey::Provided(k) && k@ == self.onion_id@,
    {
        PrimaryKey::Provided(self.onion_id.as_str())
    }
}

/// Partial update of a `user` row; `None` fields are left as they are.
pub struct UpdateUserDb {
    /// Primary key of the row to update.
    pub onion_id: String,
    /// New value for `public_key`, if any.
    pub public_key: Option<String>,
    /// New value for `private_key`, if any.
    pub private_key: Option<String>,
}

/// Row of the `contact` table.
pub struct ContactDb {
    /// Column `onion_id`: the peer's address, the primary key.
    pub onion_id: String,
    /// Column `nickname`: the name the user gave this peer.
    pub nickname: String,
    /// Column `public_key`: the peer's hex-encoded verifying key.
    pub public_key: String,
    /// Column `last_viewed_at`: when the chat was last opened.
    pub last_viewed_at: i64,
}

impl ContactDb {
    /// An owned copy of the row.
    pub fn duplicate(&self) -> (r: ContactDb)
        ensures
            r == *self,
    {
        ContactDb {
            onion_id: self.onion_id.clone(),
            nickname: self.nickname.clone(),
            public_key: self.public_key.clone(),
            last_viewed_at: self.last_viewed_at,
        }
    }

    /// The primary key of this row, known at insert.
    pub fn primary_key<'a>(&'a self) -> (r: PrimaryKey<'a>)
        ensures
            r matches PrimaryKey::Provided(k) && k@ == self.onion_id@,
    {
        PrimaryKey::Provided(self.onion_id.as_str())
    }
}

/// Partial update of a `contact` row; `None` fields are left as they are.
pub struct UpdateContactDb {
    /// Primary key of the row to update.
    pub onion_id: String,
    /// New value for `nickname`, if any.
    pub nickname: Option<String>,
    /// New value for `public_key`, if any.
    pub public_key: Option<String>,
}

/// Row of the `message` table.
pub struct MessageDb {
    /// Column `id`: auto-increment primary key.
    pub id: i64,
    /// Column `contact_onion_id`: the peer this message belongs to.
    pub contact_onion_id: String,
    /// Column `body`.
    pub body: String,
    /// Column `timestamp`: seconds since the epoch.
    pub timestamp: i64,
    /// Column `is_incoming`.
    pub is_incoming: bool,
    /// Column `sent_status`: delivery succeeded (outbound only).
    pub sent_status: bool,
    /// Column `verified_status`: signature verified (inbound only).
    pub verified_status: bool,
}

impl MessageDb {
    /// An owned copy of the row.
    pub fn duplicate(&self) -> (r: MessageDb)
        ensures
            r == *self,
    {
        MessageDb {
            id: self.id,
            contact_onion_id: self.contact_onion_id.clone(),
            body: self.body.clone(),
            timestamp: self.timestamp,
            is_incoming: self.is_incoming,
            sent_status: self.sent_status,
            verified_status: self.verified_status,
        }
    }

    /// The primary key of this row is assigned by the store.
    pub fn primary_key<'a>(&'a self) -> (r: PrimaryKey<'a>)
        ensures
            r is AutoIncrement,
    {
        PrimaryKey::AutoIncrement
    }
}

/// Partial update of a `message` row; `None` fields are left as they are.
pub struct UpdateMessageDb {
    /// Primary key of the row to update.
    pub id: i64,
    /// New value for `sent_status`, if any.
    pub sent_status: Option<bool>,
}

/// Row of the `config` table.
pub struct ConfigDb {
    /// Column `key`: one of the recognized flags.
    pub key: String,
    /// Column `value`.
    pub value: String,
}

impl ConfigDb {
    /// An owned copy of the row.
    pub fn duplicate(&self) -> (r: ConfigDb)
        ensures
            r == *self,
    {
        ConfigDb { key: self.key.clone(), value: self.value.clone() }
    }
}

// --- The store ---

/// Keys the `config` table recognizes.
pub open spec fn is_config_key(k: Seq<char>) -> bool {
    k == "enable_notifications"@ || k == "enable_attachments"@
}

/// In-memory relational store with the four tables of the schema.
pub struct Store {
    /// Table `user`; holds the one local identity row.
    pub users: Vec<UserDb>,
    /// Table `contact`.
    pub contacts: Vec<ContactDb>,
    /// Table `message`.
    pub messages: Vec<MessageDb>,
    /// Table `config`.
    pub config: Vec<ConfigDb>,
    /// Next value of the message auto-increment key.
    pub next_message_id: i64,
}

/// Some user row carries this address.
pub open spec fn contains_user(users: Seq<UserDb>, id: Seq<char>) -> bool {
    exists|i: int| 0 <= i < users.len() && users[i].onion_id@ == id
}

/// Some contact row carries this address.
pub open spec fn contains_contact(contacts: Seq<ContactDb>, id: Seq<char>) -> bool {
    exists|i: int| 0 <= i < contacts.len() && contacts[i].onion_id@ == id
}

impl Store {
    /// Invariants of the schema: unique keys, monotone message ids, and the
    /// foreign key from messages to contacts.
    pub open spec fn wf(self) -> bool {
        &&& forall|i: int, j: int|
            0 <= i < j < self.users@.len() ==> self.users@[i].onion_id@ != self.users@[j].onion_id@
        &&& forall|i: int, j: int|
            0 <= i < j < self.contacts@.len() ==> self.contacts@[i].onion_id@
                != self.contacts@[j].onion_id@
        &&& forall|i: int, j: int|
            0 <= i < j < self.messages@.len() ==> self.messages@[i].id != self.messages@[j].id
        &&& forall|i: int|
            0 <= i < self.messages@.len() ==> 0 <= #[trigger] self.messages@[i].id
                < self.next_message_id
        &&& forall|i: int|
            0 <= i < self.messages@.len() ==> contains_contact(
                self.contacts@,
                #[trigger] self.messages@[i].contact_onion_id@,
            )
        &&& forall|i: int, j: int|
            0 <= i < j < self.config@.len() ==> self.config@[i].key@ != self.config@[j].key@
        &&& forall|i: int| 0 <= i < self.messages@.len() ==> (#[trigger] self.messages@[i]).timestamp >= 0
        &&& forall|i: int| 0 <= i < self.contacts@.len() ==> (#[trigger] self.contacts@[i]).last_viewed_at >= 0
        &&& 0 <= self.next_message_id
    }

    // --- user ---

    fn find_user(&self, onion_id: &str) -> (r: Option<usize>)
        ensures
            match r {
                Some(i) => i < self.users@.len() && self.users@[i as int].onion_id@ == onion_id@,
                None => !contains_user(self.users@, onion_id@),
            },
    {
        let mut i: usize = 0;
        while i < self.users.len()
            invariant
                i <= self.users@.len(),
                forall|k: int| 0 <= k < i ==> self.users@[k].onion_id@ != onion_id@,
            decreases self.users@.len() - i,
        {
            if str_eq(self.users[i].onion_id.as_str(), onion_id) {
                return Some(i);
            }
            i = i + 1;
        }
        None
    }

    /// Insert a user row; refused when the address is already present.
    pub fn insert_user(&mut self, user: UserDb) -> (r: Result<InsertId, DatabaseError>)
        requires
            old(self).wf(),
        ensures
            final(self).wf(),
            match r {
                Ok(iid) => {
                    &&& !contains_user(old(self).users@, user.onion_id@)
                    &&& final(self).users@ == old(self).users@.push(user)
                    &&& iid matches InsertId::Text(k) && k@ == user.onion_id@
                },
                Err(e) => {
                    &&& e is DuplicateKey
                    &&& contains_user(old(self).users@, user.onion_id@)
                    &&& *final(self) == *old(self)
                },
            },
            final(self).contacts@ == old(self).contacts@,
            final(self).messages@ == old(self).messages@,
            final(self).config@ == old(self).config@,
            final(self).next_message_id == old(self).next_message_id,
    {
        if self.find_user(user.onion_id.as_str()).is_some() {
            return Err(DatabaseError::DuplicateKey);
        }
        let key = user.onion_id.clone();
        self.users.push(user);
        Ok(InsertId::Text(key))
    }

    /// Fetch the user row with this address, or `NotFound`.
    pub fn retrieve_user(&self, onion_id: &str) -> (r: Result<UserDb, DatabaseError>)
        ensures
            match r {
                Ok(u) => self.users@.contains(u) && u.onion_id@ == onion_id@,
                Err(e) => e is NotFound && !contains_user(self.users@, onion_id@),
            },
    {
        match self.find_user(onion_id) {
            Some(i) => {
                let u = self.users[i].duplicate();
                proof {
                    assert(self.users@[i as int] == u);
                }
                Ok(u)
            },
            None => Err(DatabaseError::NotFound),
        }
    }

    /// Apply the non-`None` fields of an update to every row it addresses.
    pub open spec fn spec_apply_user_update(row: UserDb, upd: UpdateUserDb) -> UserDb {
        if row.onion_id@ == upd.onion_id@ {
            UserDb {
                onion_id: row.onion_id,
                nickname: row.nickname,
                public_key: match upd.public_key {
                    Some(v) => v,
                    None => row.public_key,
                },
                private_key: match upd.private_key {
                    Some(v) => v,
                    None => row.private_key,
                },
            }
        } else {
            row
        }
    }

    /// Update the user row with the update's key; rows it does not address
    /// are untouched, and an absent row is a no-op, as in SQL `UPDATE`.
    pub fn update_user(&mut self, upd: &UpdateUserDb)
        requires
            old(self).wf(),
        ensures
            final(self).wf(),
            final(self).users@.len() == old(self).users@.len(),
            forall|i: int|
                0 <= i < old(self).users@.len() ==> final(self).users@[i]
                    == Store::spec_apply_user_update(old(self).users@[i], *upd),
            final(self).contacts@ == old(self).contacts@,
            final(self).messages@ == old(self).messages@,
            final(self).config@ == old(self).config@,
            final(self).next_message_id == old(self).next_message_id,
    {
        let mut updated: Vec<UserDb> = Vec::new();
        let mut i: usize = 0;
        while i < self.users.len()
            invariant
                *self == *old(self),
                i <= self.users@.len(),
                updated@.len() == i,
                forall|k: int|
                    0 <= k < i ==> updated@[k] == Store::spec_apply_user_update(
                        old(self).users@[k],
                        *upd,
                    ),
            decreases self.users@.len() - i,
        {
            let row = &self.users[i];
            if str_eq(row.onion_id.as_str(), upd.onion_id.as_str()) {
                let public_key = match &upd.public_key {
                    Some(v) => v.clone(),
                    None => row.public_key.clone(),
                };
                let private_key = match &upd.private_key {
                    Some(v) => v.clone(),
                    None => row.private_key.clone(),
                };
                updated.push(UserDb {
                    onion_id: row.onion_id.clone(),
                    nickname: row.nickname.clone(),
                    public_key,
                    private_key,
                });
            } else {
                updated.push(row.duplicate());
            }
            i = i + 1;
        }
        self.users = updated;
        proof {
            assert forall|a: int, b: int|
                0 <= a < b < self.users@.len() implies self.users@[a].onion_id@
                != self.users@[b].onion_id@ by {
            }
        }
    }

    // --- contact ---

    fn find_contact(&self, onion_id: &str) -> (r: Option<usize>)
        ensures
            match r {
                Some(i) => i < self.contacts@.len() && self.contacts@[i as int].onion_id@
                    == onion_id@,
                None => !contains_contact(self.contacts@, onion_id@),
            },
    {
        let mut i: usize = 0;
        while i < self.contacts.len()
            invariant
                i <= self.contacts@.len(),
                forall|k: int| 0 <= k < i ==> self.contacts@[k].onion_id@ != onion_id@,
            decreases self.contacts@.len() - i,
        {
            if str_eq(self.contacts[i].onion_id.as_str(), onion_id) {
                return Some(i);
            }
            i = i + 1;
        }
        None
    }

    /// Insert a contact row; refused when the address is already present.
    pub fn insert_contact(&mut self, contact: ContactDb) -> (r: Result<InsertId, DatabaseError>)
        requires
            old(self).wf(),
            contact.last_viewed_at >= 0,
        ensures
            final(self).wf(),
            match r {
                Ok(iid) => {
                    &&& !contains_contact(old(self).contacts@, contact.onion_id@)
                    &&& final(self).contacts@ == old(self).contacts@.push(contact)
                    &&& iid matches InsertId::Text(k) && k@ == contact.onion_id@
                },
                Err(e) => {
                    &&& e is DuplicateKey
                    &&& contains_contact(old(self).contacts@, contact.onion_id@)
                    &&& *final(self) == *old(self)
                },
            },
            final(self).users@ == old(self).users@,
            final(self).messages@ == old(self).messages@,
            final(self).config@ == old(self).config@,
            final(self).next_message_id == old(self).next_message_id,
    {
        if self.find_contact(contact.onion_id.as_str()).is_some() {
            return Err(DatabaseError::DuplicateKey);
        }
        let key = contact.onion_id.clone();
        proof {
            assert forall|i: int|
                0 <= i < self.messages@.len() implies contains_contact(
                self.contacts@.push(contact),
                #[trigger] self.messages@[i].contact_onion_id@,
            ) by {
                let id = self.messages@[i].contact_onion_id@;
                let k = choose|k: int|
                    0 <= k < self.contacts@.len() && self.contacts@[k].onion_id@ == id;
                assert(self.contacts@.push(contact)[k].onion_id@ == id);
            }
        }
        self.contacts.push(contact);
        Ok(InsertId::Text(key))
    }

    /// Fetch the contact row with this address, or `NotFound`.
    pub fn retrieve_contact(&self, onion_id: &str) -> (r: Result<ContactDb, DatabaseError>)
        ensures
            match r {
                Ok(c) => self.contacts@.contains(c) && c.onion_id@ == onion_id@,
                Err(e) => e is NotFound && !contains_contact(self.contacts@, onion_id@),
            },
    {
        match self.find_contact(onion_id) {
            Some(i) => {
                let c = self.contacts[i].duplicate();
                proof {
                    assert(self.contacts@[i as int] == c);
                }
                Ok(c)
            },
            None => Err(DatabaseError::NotFound),
        }
    }

    /// Apply the non-`None` fields of an update to every row it addresses.
    pub open spec fn spec_apply_contact_update(row: ContactDb, upd: UpdateContactDb) -> ContactDb {
        if row.onion_id@ == upd.onion_id@ {
            ContactDb {
                onion_id: row.onion_id,
                nickname: match upd.nickname {
                    Some(v) => v,
                    None => row.nickname,
                },
                public_key: match upd.public_key {
                    Some(v) => v,
                    None => row.public_key,
                },
                last_viewed_at: row.last_viewed_at,
            }
        } else {
            row
        }
    }

    /// Update the contact row with the update's key; an absent row is a
    /// no-op, as in SQL `UPDATE`.
    pub fn update_contact(&mut self, upd: &UpdateContactDb)
        requires
            old(self).wf(),
        ensures
            final(self).wf(),
            final(self).contacts@.len() == old(self).contacts@.len(),
            forall|i: int|
                0 <= i < old(self).contacts@.len() ==> final(self).contacts@[i]
                    == Store::spec_apply_contact_update(old(self).contacts@[i], *upd),
            final(self).users@ == old(self).users@,
            final(self).messages@ == old(self).messages@,
            final(self).config@ == old(self).config@,
            final(self).next_message_id == old(self).next_message_id,
    {
        let mut updated: Vec<ContactDb> = Vec::new();
        let mut i: usize = 0;
        while i < self.contacts.len()
            invariant
                *self == *old(self),
                i <= self.contacts@.len(),
                updated@.len() == i,
                forall|k: int|
                    0 <= k < i ==> updated@[k] == Store::spec_apply_contact_update(
                        old(self).contacts@[k],
                        *upd,
                    ),
            decreases self.contacts@.len() - i,
        {
            let row = &self.contacts[i];
            if str_eq(row.onion_id.as_str(), upd.onion_id.as_str()) {
                let nickname = match &upd.nickname {
                    Some(v) => v.clone(),
                    None => row.nickname.clone(),
                };
                let public_key = match &upd.public_key {
                    Some(v) => v.clone(),
                    None => row.public_key.clone(),
                };
                updated.push(ContactDb {
                    onion_id: row.onion_id.clone(),
                    nickname,
                    public_key,
                    last_viewed_at: row.last_viewed_at,
                });
            } else {
                updated.push(row.duplicate());
            }
            i = i + 1;
        }
        self.contacts = updated;
        proof {
            assert forall|i: int|
                0 <= i < self.messages@.len() implies contains_contact(
                self.contacts@,
                #[trigger] self.messages@[i].contact_onion_id@,
            ) by {
                let id = self.messages@[i].contact_onion_id@;
                let k = choose|k: int|
                    0 <= k < old(self).contacts@.len() && old(self).contacts@[k].onion_id@ == id;
                assert(self.contacts@[k].onion_id@ == id);
            }
        }
    }

    // --- message ---

    /// Insert a message row; the id the caller supplies is ignored and the
    /// auto-increment key is assigned. Refused when the named contact is
    /// absent — the foreign key of the schema.
    pub fn insert_message(&mut self, msg: MessageDb) -> (r: Result<InsertId, DatabaseError>)
        requires
            old(self).wf(),
            msg.timestamp >= 0,
        ensures
            final(self).wf(),
            match r {
                Ok(iid) => {
                    &&& contains_contact(old(self).contacts@, msg.contact_onion_id@)
                    &&& old(self).next_message_id < i64::MAX
                    &&& iid matches InsertId::Integer(id) && id == old(self).next_message_id
                    &&& final(self).messages@ == old(self).messages@.push(
                        (MessageDb { id: old(self).next_message_id, ..msg }),
                    )
                    &&& final(self).next_message_id == old(self).next_message_id + 1
                },
                Err(e) => {
                    &&& *final(self) == *old(self)
                    &&& (e is ForeignKeyMissing && !contains_contact(
                        old(self).contacts@,
                        msg.contact_onion_id@,
                    )) || (e is IdExhausted && old(self).next_message_id == i64::MAX)
                },
            },
            final(self).users@ == old(self).users@,
            final(self).contacts@ == old(self).contacts@,
            final(self).config@ == old(self).config@,
    {
        if self.find_contact(msg.contact_onion_id.as_str()).is_none() {
            return Err(DatabaseError::ForeignKeyMissing);
        }
        if self.next_message_id == i64::MAX {
            return Err(DatabaseError::IdExhausted);
        }
        let id = self.next_message_id;
        let row = MessageDb { id, ..msg };
        self.messages.push(row);
        self.next_message_id = id + 1;
        Ok(InsertId::Integer(id))
    }

    /// Apply the non-`None` fields of an update to every row it addresses.
    pub open spec fn spec_apply_message_update(row: MessageDb, upd: UpdateMessageDb) -> MessageDb {
        if row.id == upd.id {
            MessageDb {
                sent_status: match upd.sent_status {
                    Some(v) => v,
                    None => row.sent_status,
                },
                ..row
            }
        } else {
            row
        }
    }

    /// Update the message row with the update's key; an absent row is a
    /// no-op, as in SQL `UPDATE`.
    pub fn update_message(&mut self, upd: &UpdateMessageDb)
        requires
            old(self).wf(),
        ensures
            final(self).wf(),
            final(self).messages@.len() == old(self).messages@.len(),
            forall|i: int|
                0 <= i < old(self).messages@.len() ==> final(self).messages@[i]
                    == Store::spec_apply_message_update(old(self).messages@[i], *upd),
            final(self).users@ == old(self).users@,
            final(self).contacts@ == old(self).contacts@,
            final(self).config@ == old(self).config@,
            final(self).next_message_id == old(self).next_message_id,
    {
        let mut updated: Vec<MessageDb> = Vec::new();
        let mut i: usize = 0;
        while i < self.messages.len()
            invariant
                *self == *old(self),
                i <= self.messages@.len(),
                updated@.len() == i,
                forall|k: int|
                    0 <= k < i ==> updated@[k] == Store::spec_apply_message_update(
                        old(self).messages@[k],
                        *upd,
                    ),
            decreases self.messages@.len() - i,
        {
            let row = &self.messages[i];
            if row.id == upd.id {
                let sent_status = match upd.sent_status {
                    Some(v) => v,
                    None => row.sent_status,
                };
                let mut new_row = row.duplicate();
                new_row.sent_status = sent_status;
                updated.push(new_row);
            } else {
                updated.push(row.duplicate());
            }
            i = i + 1;
        }
        self.messages = updated;
    }

    // --- deletion, with the schema's cascade ---

    /// The rows that survive deleting the contact with address `id`.
    pub open spec fn spec_messages_without(ms: Seq<MessageDb>, id: Seq<char>) -> Seq<MessageDb> {
        filtered(ms, |m: MessageDb| m.contact_onion_id@ != id)
    }

    /// Delete the messages of one contact.
    pub fn delete_contact_messages(&mut self, onion_id: &str)
        requires
            old(self).wf(),
        ensures
            final(self).wf(),
            final(self).messages@ == Store::spec_messages_without(old(self).messages@, onion_id@),
            forall|i: int|
                0 <= i < final(self).messages@.len() ==> (#[trigger] final(self).messages@[i]).contact_onion_id@ != onion_id@,
            final(self).users@ == old(self).users@,
            final(self).contacts@ == old(self).contacts@,
            final(self).config@ == old(self).config@,
            final(self).next_message_id == old(self).next_message_id,
    {
        let ghost p = |m: MessageDb| m.contact_onion_id@ != onion_id@;
        let mut kept: Vec<MessageDb> = Vec::new();
        let mut i: usize = 0;
        while i < self.messages.len()
            invariant
                *self == *old(self),
                i <= self.messages@.len(),
                kept@ == filtered(self.messages@.subrange(0, i as int), p),
                p == (|m: MessageDb| m.contact_onion_id@ != onion_id@),
            decreases self.messages@.len() - i,
        {
            let row = &self.messages[i];
            proof {
                assert(self.messages@.subrange(0, i as int + 1).drop_last() =~= self
                    .messages@
                    .subrange(0, i as int));
                assert(self.messages@.subrange(0, i as int + 1).last() == self.messages@[i as int]);
            }
            if !str_eq(row.contact_onion_id.as_str(), onion_id) {
                kept.push(row.duplicate());
            }
            i = i + 1;
        }
        proof {
            assert(self.messages@.subrange(0, self.messages@.len() as int) =~= self.messages@);
            lemma_filtered_all(self.messages@, p);
        }
        self.messages = kept;
        proof {
            assert forall|i: int|
                0 <= i < self.messages@.len() implies contains_contact(
                self.contacts@,
                (#[trigger] self.messages@[i]).contact_onion_id@,
            ) && (self.messages@[i]).contact_onion_id@ != onion_id@ by {
                lemma_filtered_all(old(self).messages@, p);
                assert(old(self).messages@.contains(self.messages@[i]));
                let k = choose|k: int|
                    0 <= k < old(self).messages@.len() && old(self).messages@[k]
                        == self.messages@[i];
            }
            assert forall|a: int, b: int|
                0 <= a < b < self.messages@.len() implies self.messages@[a].id
                != self.messages@[b].id by {
                lemma_filtered_distinct_ids(old(self).messages@, p);
            }
        }
    }

    /// Delete one contact row; the schema's cascade removes its messages.
    pub fn delete_contact(&mut self, onion_id: &str)
        requires
            old(self).wf(),
        ensures
            final(self).wf(),
            final(self).contacts@ == filtered(
                old(self).contacts@,
                (|c: ContactDb| c.onion_id@ != onion_id@),
            ),
            !contains_contact(final(self).contacts@, onion_id@),
            final(self).messages@ == Store::spec_messages_without(old(self).messages@, onion_id@),
            forall|i: int|
                0 <= i < final(self).messages@.len() ==> (#[trigger] final(self).messages@[i]).contact_onion_id@ != onion_id@,
            final(self).users@ == old(self).users@,
            final(self).config@ == old(self).config@,
            final(self).next_message_id == old(self).next_message_id,
    {
        self.delete_contact_messages(onion_id);
        let ghost p = |c: ContactDb| c.onion_id@ != onion_id@;
        let mut kept: Vec<ContactDb> = Vec::new();
        let mut i: usize = 0;
        let ghost mid = *self;
        while i < self.contacts.len()
            invariant
                *self == mid,
                i <= self.contacts@.len(),
                kept@ == filtered(self.contacts@.subrange(0, i as int), p),
                p == (|c: ContactDb| c.onion_id@ != onion_id@),
            decreases self.contacts@.len() - i,
        {
            let row = &self.contacts[i];
            proof {
                assert(self.contacts@.subrange(0, i as int + 1).drop_last() =~= self
                    .contacts@
                    .subrange(0, i as int));
                assert(self.contacts@.subrange(0, i as int + 1).last() == self.contacts@[i as int]);
            }
            if !str_eq(row.onion_id.as_str(), onion_id) {
                kept.push(row.duplicate());
            }
            i = i + 1;
        }
        proof {
            assert(self.contacts@.subrange(0, self.contacts@.len() as int) =~= self.contacts@);
        }
        self.contacts = kept;
        proof {
            let oldc = mid.contacts@;
            lemma_filtered_all(oldc, p);
            assert forall|a: int, b: int|
                0 <= a < b < self.contacts@.len() implies self.contacts@[a].onion_id@
                != self.contacts@[b].onion_id@ by {
                lemma_filtered_distinct_contacts(oldc, p);
            }
            if contains_contact(self.contacts@, onion_id@) {
                let k = choose|k: int|
                    0 <= k < self.contacts@.len() && self.contacts@[k].onion_id@ == onion_id@;
                assert(p(self.contacts@[k]));
            }
            assert forall|i: int|
                0 <= i < self.messages@.len() implies contains_contact(
                self.contacts@,
                (#[trigger] self.messages@[i]).contact_onion_id@,
            ) by {
                let id = self.messages@[i].contact_onion_id@;
                assert(id != onion_id@);
                let k = choose|k: int| 0 <= k < oldc.len() && oldc[k].onion_id@ == id;
                lemma_filtered_contains(oldc, p, oldc[k]);
                assert(oldc.contains(oldc[k]));
                assert(p(oldc[k]));
                assert(self.contacts@.contains(oldc[k]));
                let m = choose|m: int|
                    0 <= m < self.contacts@.len() && self.contacts@[m] == oldc[k];
            }
        }
    }

    /// Delete every contact; the cascade leaves the message table empty.
    pub fn delete_all_contacts(&mut self)
        requires
            old(self).wf(),
        ensures
            final(self).wf(),
            final(self).contacts@ == Seq::<ContactDb>::empty(),
            final(self).messages@ == Seq::<MessageDb>::empty(),
            final(self).users@ == old(self).users@,
            final(self).config@ == old(self).config@,
            final(self).next_message_id == old(self).next_message_id,
    {
        self.contacts = Vec::new();
        self.messages = Vec::new();
        proof {
            assert(self.contacts@ =~= Seq::<ContactDb>::empty());
            assert(self.messages@ =~= Seq::<MessageDb>::empty());
        }
    }

    // --- config ---

    /// The stored value of a config key.
    pub open spec fn spec_config_lookup(cfg: Seq<ConfigDb>, key: Seq<char>) -> Option<Seq<char>>
        decreases cfg.len(),
    {
        if cfg.len() == 0 {
            None
        } else if cfg[0].key@ == key {
            Some(cfg[0].value@)
        } else {
            Self::spec_config_lookup(cfg.drop_first(), key)
        }
    }

    /// Read a config value; unknown keys read as `None`.
    pub fn config_get(&self, key: &str) -> (r: Option<String>)
        ensures
            match r {
                Some(v) => Store::spec_config_lookup(self.config@, key@) == Some(v@),
                None => Store::spec_config_lookup(self.config@, key@) is None,
            },
    {
        let mut i: usize = 0;
        proof {
            assert(self.config@.skip(0) =~= self.config@);
        }
        while i < self.config.len()
            invariant
                i <= self.config@.len(),
                Store::spec_config_lookup(self.config@, key@) == Store::spec_config_lookup(
                    self.config@.skip(i as int),
                    key@,
                ),
            decreases self.config@.len() - i,
        {
            proof {
                assert(self.config@.skip(i as int).len() > 0);
                assert(self.config@.skip(i as int)[0] == self.config@[i as int]);
                assert(self.config@.skip(i as int).drop_first() =~= self.config@.skip(
                    i as int + 1,
                ));
            }
            if str_eq(self.config[i].key.as_str(), key) {
                return Some(self.config[i].value.clone());
            }
            i = i + 1;
        }
        proof {
            assert(self.config@.skip(self.config@.len() as int).len() == 0);
        }
        None
    }

    /// Set a recognized config key, updating the stored row; unknown keys are
    /// refused.
    pub fn config_set(&mut self, key: &str, value: &str) -> (r: Result<(), ConfigError>)
        requires
            old(self).wf(),
        ensures
            final(self).wf(),
            match r {
                Ok(()) => is_config_key(key@) && Store::spec_config_lookup(
                    final(self).config@,
                    key@,
                ) == Some(value@),
                Err(e) => e is UnknownKey && !is_config_key(key@) && *final(self) == *old(self),
            },
            r is Ok ==> forall|k: Seq<char>|
                k != key@ ==> #[trigger] Store::spec_config_lookup(final(self).config@, k)
                    == Store::spec_config_lookup(old(self).config@, k),
            final(self).users@ == old(self).users@,
            final(self).contacts@ == old(self).contacts@,
            final(self).messages@ == old(self).messages@,
            final(self).next_message_id == old(self).next_message_id,
    {
        let recognized = str_eq(key, "enable_notifications") || str_eq(key, "enable_attachments");
        if !recognized {
            return Err(ConfigError::UnknownKey);
        }
        let mut updated: Vec<ConfigDb> = Vec::new();
        let mut i: usize = 0;
        let mut found = false;
        while i < self.config.len()
            invariant
                *self == *old(self),
                i <= self.config@.len(),
                updated@.len() == i,
                forall|k: int|
                    0 <= k < i ==> (#[trigger] updated@[k]).key@ == old(self).config@[k].key@,
                forall|k: int|
                    0 <= k < i && (#[trigger] old(self).config@[k]).key@ != key@ ==> updated@[k]
                        == old(self).config@[k],
                forall|k: int|
                    0 <= k < i && (#[trigger] updated@[k]).key@ == key@ ==> updated@[k].value@
                        == value@,
                found == exists|k: int| 0 <= k < i && (#[trigger] old(self).config@[k]).key@ == key@,
            decreases self.config@.len() - i,
        {
            let row = &self.config[i];
            if str_eq(row.key.as_str(), key) {
                updated.push(ConfigDb {
                    key: row.key.clone(),
                    value: String::from_str(value),
                });
                found = true;
            } else {
                updated.push(row.duplicate());
            }
            i = i + 1;
        }
        if !found {
            updated.push(ConfigDb { key: String::from_str(key), value: String::from_str(value) });
        }
        let ghost oldcfg = self.config@;
        self.config = updated;
        proof {
            let newcfg = self.config@;
            if found {
                let k = choose|k: int| 0 <= k < oldcfg.len() && (#[trigger] oldcfg[k]).key@ == key@;
                assert(newcfg[k].key@ == key@);
            } else {
                assert(newcfg.last().key@ == key@);
                assert(newcfg[newcfg.len() - 1].key@ == key@);
            }
            assert forall|k: int|
                0 <= k < newcfg.len() && (#[trigger] newcfg[k]).key@ == key@ implies newcfg[k].value@
                == value@ by {
                if k < oldcfg.len() {
                } else {
                    assert(newcfg[k] == newcfg.last());
                }
            }
            lemma_config_lookup_found(newcfg, key@, value@);
            assert forall|q: Seq<char>|
                q != key@ implies #[trigger] Store::spec_config_lookup(newcfg, q)
                == Store::spec_config_lookup(oldcfg, q) by {
                lemma_config_lookup_unaffected(oldcfg, newcfg, key@, q);
            }
            // key uniqueness survives: keys are unchanged, and a key is only
            // appended when it was absent
            assert forall|a: int, b: int|
                0 <= a < b < newcfg.len() implies newcfg[a].key@ != newcfg[b].key@ by {
                if b == newcfg.len() - 1 && newcfg.len() == oldcfg.len() + 1 {
                    assert(newcfg[b].key@ == key@);
                    assert(newcfg[a].key@ == oldcfg[a].key@);
                }
            }
        }
        Ok(())
    }

    // --- retry query ---

    /// A message the retry loop should attempt again: outbound, not yet
    /// delivered, and aged between the two bounds.
    pub open spec fn retry_eligible(m: MessageDb, now: i64) -> bool {
        &&& !m.is_incoming
        &&& !m.sent_status
        &&& m.timestamp <= now - RETRY_MIN_AGE
        &&& m.timestamp >= now - RETRY_MAX_AGE
    }

    /// The outbound messages eligible for a retry at time `now`, in table
    /// order.
    pub fn failed_messages(&self, now: i64) -> (r: Vec<MessageDb>)
        requires
            i64::MIN + RETRY_MAX_AGE <= now,
        ensures
            r@ == filtered(self.messages@, (|m: MessageDb| Store::retry_eligible(m, now))),
    {
        let ghost p = |m: MessageDb| Store::retry_eligible(m, now);
        let mut out: Vec<MessageDb> = Vec::new();
        let mut i: usize = 0;
        while i < self.messages.len()
            invariant
                i <= self.messages@.len(),
                out@ == filtered(self.messages@.subrange(0, i as int), p),
                p == (|m: MessageDb| Store::retry_eligible(m, now)),
                i64::MIN + RETRY_MAX_AGE <= now,
            decreases self.messages@.len() - i,
        {
            let row = &self.messages[i];
            proof {
                assert(self.messages@.subrange(0, i as int + 1).drop_last() =~= self
                    .messages@
                    .subrange(0, i as int));
                assert(self.messages@.subrange(0, i as int + 1).last() == self.messages@[i as int]);
            }
            if !row.is_incoming && !row.sent_status && row.timestamp <= now - RETRY_MIN_AGE
                && row.timestamp >= now - RETRY_MAX_AGE {
                out.push(row.duplicate());
            }
            i = i + 1;
        }
        proof {
            assert(self.messages@.subrange(0, self.messages@.len() as int) =~= self.messages@);
        }
        out
    }
}

// --- Activity queries ---

/// A contact as the UI lists it: the stored row plus the computed last
/// message time and unread count.
pub struct Contact {
    /// The peer's address.
    pub onion_id: String,
    /// The name the user gave this peer.
    pub nickname: String,
    /// The peer's hex-encoded verifying key.
    pub public_key: String,
    /// Timestamp of the newest message with this peer, 0 when there is none.
    pub last_message_at: i64,
    /// When the chat was last opened.
    pub last_viewed_at: i64,
    /// Number of inbound messages newer than `last_viewed_at`.
    pub unread_count: u64,
}

/// A message belongs to the chat with `contact_id`.
pub open spec fn chat_pred(contact_id: Seq<char>) -> spec_fn(MessageDb) -> bool {
    |m: MessageDb| m.contact_onion_id@ == contact_id
}

/// An inbound message of this chat that the user has not viewed yet.
pub open spec fn unread_pred(contact_id: Seq<char>, last_viewed: i64) -> spec_fn(MessageDb) -> bool {
    |m: MessageDb| m.is_incoming && m.contact_onion_id@ == contact_id && m.timestamp > last_viewed
}

/// Number of inbound messages of this chat newer than `last_viewed`.
pub open spec fn unread_count(ms: Seq<MessageDb>, contact_id: Seq<char>, last_viewed: i64) -> nat {
    filtered(ms, unread_pred(contact_id, last_viewed)).len()
}

/// Timestamp of the newest message of this chat, 0 when there is none.
pub open spec fn last_message_at(ms: Seq<MessageDb>, contact_id: Seq<char>) -> i64
    decreases ms.len(),
{
    if ms.len() == 0 {
        0
    } else {
        let rest = last_message_at(ms.drop_last(), contact_id);
        if ms.last().contact_onion_id@ == contact_id && ms.last().timestamp > rest {
            ms.last().timestamp
        } else {
            rest
        }
    }
}

/// The UI view of one contact row against a message table.
pub open spec fn spec_contact_overview(ms: Seq<MessageDb>, c: ContactDb) -> Contact {
    Contact {
        onion_id: c.onion_id,
        nickname: c.nickname,
        public_key: c.public_key,
        last_message_at: last_message_at(ms, c.onion_id@),
        last_viewed_at: c.last_viewed_at,
        unread_count: unread_count(ms, c.onion_id@, c.last_viewed_at) as u64,
    }
}

/// Newest first.
pub open spec fn sorted_by_timestamp_desc(ms: Seq<MessageDb>) -> bool {
    forall|i: int, j: int| 0 <= i < j < ms.len() ==> ms[i].timestamp >= ms[j].timestamp
}

/// Most recently active first.
pub open spec fn sorted_by_activity_desc(cs: Seq<Contact>) -> bool {
    forall|i: int, j: int| 0 <= i < j < cs.len() ==> cs[i].last_message_at >= cs[j].last_message_at
}

/// Multiset bookkeeping for one sorted insertion: the sequence around the
/// insertion point decomposes into three parts.
proof fn lemma_insert_multiset<A>(s: Seq<A>, p: int, x: A)
    requires
        0 <= p <= s.len(),
    ensures
        s.insert(p, x).to_multiset() =~= s.to_multiset().insert(x),
{
    broadcast use vstd::seq_lib::group_seq_properties;

    let a = s.subrange(0, p);
    let b = s.subrange(p, s.len() as int);
    assert(s =~= a + b);
    assert(s.insert(p, x) =~= a + (seq![x] + b));
    vstd::seq_lib::lemma_multiset_commutative(a, b);
    vstd::seq_lib::lemma_multiset_commutative(a, seq![x] + b);
    vstd::seq_lib::lemma_multiset_commutative(seq![x], b);
    assert(seq![x] =~= Seq::<A>::empty().push(x));
    assert(Seq::<A>::empty().push(x).to_multiset() =~= Seq::<A>::empty().to_multiset().insert(x))
        by {
        Seq::<A>::empty().to_multiset_ensures();
    }
    assert(s.insert(p, x).to_multiset() =~= s.to_multiset().insert(x));
}

/// Insert a message into a list kept newest-first, keeping the order.
fn sorted_insert_message(out: &mut Vec<MessageDb>, m: MessageDb)
    requires
        sorted_by_timestamp_desc(old(out)@),
    ensures
        sorted_by_timestamp_desc(final(out)@),
        final(out)@.to_multiset() == old(out)@.to_multiset().insert(m),
        final(out)@.len() == old(out)@.len() + 1,
{
    let mut p: usize = 0;
    while p < out.len() && out[p].timestamp >= m.timestamp
        invariant
            p <= out@.len(),
            forall|k: int| 0 <= k < p ==> (#[trigger] out@[k]).timestamp >= m.timestamp,
        decreases out@.len() - p,
    {
        p = p + 1;
    }
    proof {
        lemma_insert_multiset(out@, p as int, m);
    }
    let ghost pre = out@;
    out.insert(p, m);
    proof {
        assert forall|i: int, j: int|
            0 <= i < j < out@.len() implies out@[i].timestamp >= out@[j].timestamp by {
            assert(out@ == pre.insert(p as int, m));
            if i < p && j < p {
            } else if i < p && j == p {
            } else if i < p && j > p {
                assert(out@[j] == pre[j - 1]);
            } else if i == p && j > p {
                assert(out@[j] == pre[j - 1]);
                assert(pre[j - 1].timestamp <= m.timestamp);
            } else {
                assert(out@[i] == pre[i - 1] && out@[j] == pre[j - 1]);
            }
        }
    }
}

/// Insert a contact overview into a list kept most-recently-active first.
fn sorted_insert_contact(out: &mut Vec<Contact>, c: Contact)
    requires
        sorted_by_activity_desc(old(out)@),
    ensures
        sorted_by_activity_desc(final(out)@),
        final(out)@.to_multiset() == old(out)@.to_multiset().insert(c),
        final(out)@.len() == old(out)@.len() + 1,
{
    let mut p: usize = 0;
    while p < out.len() && out[p].last_message_at >= c.last_message_at
        invariant
            p <= out@.len(),
            forall|k: int| 0 <= k < p ==> (#[trigger] out@[k]).last_message_at >= c.last_message_at,
        decreases out@.len() - p,
    {
        p = p + 1;
    }
    proof {
        lemma_insert_multiset(out@, p as int, c);
    }
    let ghost pre = out@;
    out.insert(p, c);
    proof {
        assert forall|i: int, j: int|
            0 <= i < j < out@.len() implies out@[i].last_message_at >= out@[j].last_message_at by {
            assert(out@ == pre.insert(p as int, c));
            if i < p && j < p {
            } else if i < p && j == p {
            } else if i < p && j > p {
                assert(out@[j] == pre[j - 1]);
            } else if i == p && j > p {
                assert(out@[j] == pre[j - 1]);
                assert(pre[j - 1].last_message_at <= c.last_message_at);
            } else {
                assert(out@[i] == pre[i - 1] && out@[j] == pre[j - 1]);
            }
        }
    }
}

impl Store {
    /// The messages of one chat, newest first. As a side effect the chat
    /// counts as viewed now: the contact's `last_viewed_at` becomes `now`.
    pub fn messages_with(&mut self, onion_id: &str, now: i64) -> (r: Vec<MessageDb>)
        requires
            old(self).wf(),
            now >= 0,
        ensures
            final(self).wf(),
            r@.to_multiset() == filtered(old(self).messages@, chat_pred(onion_id@)).to_multiset(),
            sorted_by_timestamp_desc(r@),
            final(self).contacts@.len() == old(self).contacts@.len(),
            forall|i: int|
                0 <= i < old(self).contacts@.len() ==> final(self).contacts@[i] == (if old(
                    self,
                ).contacts@[i].onion_id@ == onion_id@ {
                    (ContactDb {
                        onion_id: old(self).contacts@[i].onion_id,
                        nickname: old(self).contacts@[i].nickname,
                        public_key: old(self).contacts@[i].public_key,
                        last_viewed_at: now,
                    })
                } else {
                    old(self).contacts@[i]
                }),
            final(self).users@ == old(self).users@,
            final(self).messages@ == old(self).messages@,
            final(self).config@ == old(self).config@,
            final(self).next_message_id == old(self).next_message_id,
    {
        let ghost p = chat_pred(onion_id@);
        let mut r: Vec<MessageDb> = Vec::new();
        let mut i: usize = 0;
        while i < self.messages.len()
            invariant
                *self == *old(self),
                i <= self.messages@.len(),
                sorted_by_timestamp_desc(r@),
                r@.to_multiset() == filtered(
                    self.messages@.subrange(0, i as int),
                    p,
                ).to_multiset(),
                p == chat_pred(onion_id@),
            decreases self.messages@.len() - i,
        {
            let row = &self.messages[i];
            proof {
                assert(self.messages@.subrange(0, i as int + 1).drop_last() =~= self
                    .messages@
                    .subrange(0, i as int));
                assert(self.messages@.subrange(0, i as int + 1).last() == self.messages@[i as int]);
                filtered(self.messages@.subrange(0, i as int), p).to_multiset_ensures();
            }
            if str_eq(row.contact_onion_id.as_str(), onion_id) {
                sorted_insert_message(&mut r, row.duplicate());
            }
            i = i + 1;
        }
        proof {
            assert(self.messages@.subrange(0, self.messages@.len() as int) =~= self.messages@);
        }
        // mark the chat as viewed now
        let mut updated: Vec<ContactDb> = Vec::new();
        let mut k: usize = 0;
        let ghost mid = *self;
        while k < self.contacts.len()
            invariant
                *self == mid,
                k <= self.contacts@.len(),
                updated@.len() == k,
                forall|q: int|
                    0 <= q < k ==> updated@[q] == (if mid.contacts@[q].onion_id@ == onion_id@ {
                        (ContactDb {
                            onion_id: mid.contacts@[q].onion_id,
                            nickname: mid.contacts@[q].nickname,
                            public_key: mid.contacts@[q].public_key,
                            last_viewed_at: now,
                        })
                    } else {
                        mid.contacts@[q]
                    }),
            decreases self.contacts@.len() - k,
        {
            let row = &self.contacts[k];
            if str_eq(row.onion_id.as_str(), onion_id) {
                updated.push(ContactDb {
                    onion_id: row.onion_id.clone(),
                    nickname: row.nickname.clone(),
                    public_key: row.public_key.clone(),
                    last_viewed_at: now,
                });
            } else {
                updated.push(row.duplicate());
            }
            k = k + 1;
        }
        self.contacts = updated;
        proof {
            assert forall|i: int|
                0 <= i < self.messages@.len() implies contains_contact(
                self.contacts@,
                (#[trigger] self.messages@[i]).contact_onion_id@,
            ) by {
                let id = self.messages@[i].contact_onion_id@;
                let q = choose|q: int|
                    0 <= q < mid.contacts@.len() && mid.contacts@[q].onion_id@ == id;
                assert(self.contacts@[q].onion_id@ == id);
            }
        }
        r
    }

    /// One overview record for a contact row, against the current messages.
    fn contact_overview(&self, c: &ContactDb) -> (r: Contact)
        ensures
            r == spec_contact_overview(self.messages@, *c),
    {
        let ghost up = unread_pred(c.onion_id@, c.last_viewed_at);
        let mut unread: usize = 0;
        let mut last: i64 = 0;
        let mut i: usize = 0;
        while i < self.messages.len()
            invariant
                i <= self.messages@.len(),
                unread <= i,
                unread == filtered(self.messages@.subrange(0, i as int), up).len(),
                last == last_message_at(self.messages@.subrange(0, i as int), c.onion_id@),
                up == unread_pred(c.onion_id@, c.last_viewed_at),
            decreases self.messages@.len() - i,
        {
            let row = &self.messages[i];
            proof {
                assert(self.messages@.subrange(0, i as int + 1).drop_last() =~= self
                    .messages@
                    .subrange(0, i as int));
                assert(self.messages@.subrange(0, i as int + 1).last() == self.messages@[i as int]);
            }
            let is_chat = str_eq(row.contact_onion_id.as_str(), c.onion_id.as_str());
            if row.is_incoming && is_chat && row.timestamp > c.last_viewed_at {
                unread = unread + 1;
            }
            if is_chat && row.timestamp > last {
                last = row.timestamp;
            }
            i = i + 1;
        }
        proof {
            assert(self.messages@.subrange(0, self.messages@.len() as int) =~= self.messages@);
        }
        Contact {
            onion_id: c.onion_id.clone(),
            nickname: c.nickname.clone(),
            public_key: c.public_key.clone(),
            last_message_at: last,
            last_viewed_at: c.last_viewed_at,
            unread_count: unread as u64,
        }
    }

    /// All contacts with their computed activity, most recently active first.
    pub fn contacts_with_unread(&self) -> (r: Vec<Contact>)
        ensures
            r@.to_multiset() == self.contacts@.map_values(
                (|c: ContactDb| spec_contact_overview(self.messages@, c)),
            ).to_multiset(),
            sorted_by_activity_desc(r@),
            r@.len() == self.contacts@.len(),
    {
        let ghost ov = |c: ContactDb| spec_contact_overview(self.messages@, c);
        let mut r: Vec<Contact> = Vec::new();
        let mut i: usize = 0;
        proof {
            assert(self.contacts@.subrange(0, 0) =~= Seq::<ContactDb>::empty());
            assert(Seq::<ContactDb>::empty().map_values(ov) =~= Seq::<Contact>::empty());
            assert(r@ =~= Seq::<Contact>::empty());
        }
        while i < self.contacts.len()
            invariant
                i <= self.contacts@.len(),
                sorted_by_activity_desc(r@),
                r@.len() == i,
                r@.to_multiset() == self.contacts@.subrange(0, i as int).map_values(
                    ov,
                ).to_multiset(),
                ov == (|c: ContactDb| spec_contact_overview(self.messages@, c)),
            decreases self.contacts@.len() - i,
        {
            let c = self.contact_overview(&self.contacts[i]);
            proof {
                let pre = self.contacts@.subrange(0, i as int).map_values(ov);
                assert(self.contacts@.subrange(0, i as int + 1).map_values(ov) =~= pre.push(
                    ov(self.contacts@[i as int]),
                ));
                pre.to_multiset_ensures();
            }
            sorted_insert_contact(&mut r, c);
            i = i + 1;
        }
        proof {
            assert(self.contacts@.subrange(0, self.contacts@.len() as int) =~= self.contacts@);
        }
        r
    }
}

/// The newest-message time is never negative when timestamps are not.
pub proof fn lemma_last_message_at_nonneg(ms: Seq<MessageDb>, contact_id: Seq<char>)
    requires
        forall|i: int| 0 <= i < ms.len() ==> (#[trigger] ms[i]).timestamp >= 0,
    ensures
        last_message_at(ms, contact_id) >= 0,
    decreases ms.len(),
{
    if ms.len() > 0 {
        assert(forall|i: int|
            0 <= i < ms.drop_last().len() ==> (#[trigger] ms.drop_last()[i]).timestamp >= 0);
        lemma_last_message_at_nonneg(ms.drop_last(), contact_id);
    }
}

/// Law: every message of the chat being at or before `now`, viewing the chat
/// now leaves nothing unread.
pub proof fn lemma_unread_cleared(ms: Seq<MessageDb>, contact_id: Seq<char>, now: i64)
    requires
        forall|i: int| 0 <= i < ms.len() ==> (#[trigger] ms[i]).timestamp <= now,
    ensures
        unread_count(ms, contact_id, now) == 0,
{
    let p = unread_pred(contact_id, now);
    let f = filtered(ms, p);
    if f.len() > 0 {
        lemma_filtered_all(ms, p);
        assert(p(f[0]) && ms.contains(f[0]));
        let k = choose|k: int| 0 <= k < ms.len() && ms[k] == f[0];
        assert(ms[k].timestamp <= now);
        assert(false);
    }
}

/// Fresh store with the schema's tables and the config defaults: both
/// recognized flags start as "true", and message ids start at 1.
pub fn init_database() -> (r: Store)
    ensures
        r.wf(),
        r.users@ == Seq::<UserDb>::empty(),
        r.contacts@ == Seq::<ContactDb>::empty(),
        r.messages@ == Seq::<MessageDb>::empty(),
        r.next_message_id == 1,
        Store::spec_config_lookup(r.config@, "enable_notifications"@) == Some("true"@),
        Store::spec_config_lookup(r.config@, "enable_attachments"@) == Some("true"@),
{
    let mut config: Vec<ConfigDb> = Vec::new();
    config.push(ConfigDb {
        key: String::from_str("enable_notifications"),
        value: String::from_str("true"),
    });
    config.push(ConfigDb {
        key: String::from_str("enable_attachments"),
        value: String::from_str("true"),
    });
    let r = Store {
        users: Vec::new(),
        contacts: Vec::new(),
        messages: Vec::new(),
        config,
        next_message_id: 1,
    };
    proof {
        assert(r.users@ =~= Seq::<UserDb>::empty());
        assert(r.contacts@ =~= Seq::<ContactDb>::empty());
        assert(r.messages@ =~= Seq::<MessageDb>::empty());
        reveal_strlit("enable_notifications");
        reveal_strlit("enable_attachments");
        assert(r.config@[0].key@ == "enable_notifications"@);
        assert(r.config@[1].key@ == "enable_attachments"@);
        assert(r.config@.drop_first()[0] == r.config@[1]);
        assert("enable_notifications"@ != "enable_attachments"@);
        assert(Store::spec_config_lookup(r.config@.drop_first(), "enable_attachments"@) == Some(
            "true"@,
        ));
    }
    r
}

/// Path of the database file inside the project directory.
pub fn database_path(project_dir: &str) -> (r: String)
    ensures
        r@ == project_dir@ + "/arti-chat.db"@,
{
    let mut path = String::from_str(project_dir);
    path.append("/arti-chat.db");
    path
}

/// Youngest age at which an undelivered outbound message is retried; below
/// it, the initial send may still be in flight.
pub const RETRY_MIN_AGE: i64 = 30;

/// Oldest age at which an undelivered outbound message is retried; beyond
/// it, the message ages out silently.
pub const RETRY_MAX_AGE: i64 = 300;

/// Law: a message is eligible for retry exactly when it is outbound, not
/// delivered, and its age lies within the window.
pub proof fn lemma_retry_window(m: MessageDb, now: i64)
    requires
        i64::MIN + RETRY_MAX_AGE <= now <= i64::MAX - RETRY_MIN_AGE,
    ensures
        Store::retry_eligible(m, now) <==> (!m.is_incoming && !m.sent_status && RETRY_MIN_AGE
            <= now - m.timestamp <= RETRY_MAX_AGE),
{
}

proof fn lemma_filtered_distinct_ids(s: Seq<MessageDb>, p: spec_fn(MessageDb) -> bool)
    requires
        forall|i: int, j: int| 0 <= i < j < s.len() ==> s[i].id != s[j].id,
    ensures
        forall|i: int, j: int|
            0 <= i < j < filtered(s, p).len() ==> filtered(s, p)[i].id != filtered(s, p)[j].id,
    decreases s.len(),
{
    if s.len() > 0 {
        assert(forall|i: int, j: int|
            0 <= i < j < s.drop_last().len() ==> s.drop_last()[i].id != s.drop_last()[j].id);
        lemma_filtered_distinct_ids(s.drop_last(), p);
        lemma_filtered_all(s.drop_last(), p);
        assert forall|i: int, j: int|
            0 <= i < j < filtered(s, p).len() implies filtered(s, p)[i].id
            != filtered(s, p)[j].id by {
            let f = filtered(s, p);
            let fd = filtered(s.drop_last(), p);
            if j == f.len() - 1 && f.len() > fd.len() {
                // the last element comes from s.last(); earlier ones from the prefix
                assert(f[j] == s.last());
                assert(f[i] == fd[i]);
                assert(s.drop_last().contains(fd[i]));
                let k = choose|k: int|
                    0 <= k < s.drop_last().len() && s.drop_last()[k] == fd[i];
                assert(s[k] == fd[i]);
                assert(s[s.len() - 1] == s.last());
            } else {
                assert(f[i] == fd[i] && f[j] == fd[j]);
            }
        }
    }
}

proof fn lemma_filtered_distinct_contacts(s: Seq<ContactDb>, p: spec_fn(ContactDb) -> bool)
    requires
        forall|i: int, j: int| 0 <= i < j < s.len() ==> s[i].onion_id@ != s[j].onion_id@,
    ensures
        forall|i: int, j: int|
            0 <= i < j < filtered(s, p).len() ==> filtered(s, p)[i].onion_id@ != filtered(
                s,
                p,
            )[j].onion_id@,
    decreases s.len(),
{
    if s.len() > 0 {
        assert(forall|i: int, j: int|
            0 <= i < j < s.drop_last().len() ==> s.drop_last()[i].onion_id@
                != s.drop_last()[j].onion_id@);
        lemma_filtered_distinct_contacts(s.drop_last(), p);
        lemma_filtered_all(s.drop_last(), p);
        assert forall|i: int, j: int|
            0 <= i < j < filtered(s, p).len() implies filtered(s, p)[i].onion_id@ != filtered(
            s,
            p,
        )[j].onion_id@ by {
            let f = filtered(s, p);
            let fd = filtered(s.drop_last(), p);
            if j == f.len() - 1 && f.len() > fd.len() {
                assert(f[j] == s.last());
                assert(f[i] == fd[i]);
                assert(s.drop_last().contains(fd[i]));
                let k = choose|k: int|
                    0 <= k < s.drop_last().len() && s.drop_last()[k] == fd[i];
                assert(s[k] == fd[i]);
                assert(s[s.len() - 1] == s.last());
            } else {
                assert(f[i] == fd[i] && f[j] == fd[j]);
            }
        }
    }
}

/// A table in which some row carries `key` with value `value`, and every row
/// carrying `key` carries that value, looks `key` up as `value`.
proof fn lemma_config_lookup_found(b: Seq<ConfigDb>, key: Seq<char>, value: Seq<char>)
    requires
        exists|k: int| 0 <= k < b.len() && (#[trigger] b[k]).key@ == key,
        forall|k: int|
            0 <= k < b.len() && (#[trigger] b[k]).key@ == key ==> b[k].value@ == value,
    ensures
        Store::spec_config_lookup(b, key) == Some(value),
    decreases b.len(),
{
    if b[0].key@ == key {
    } else {
        let b1 = b.drop_first();
        let k = choose|k: int| 0 <= k < b.len() && (#[trigger] b[k]).key@ == key;
        assert(b1[k - 1].key@ == key);
        assert(forall|m: int| 0 <= m < b1.len() ==> #[trigger] b1[m] == b[m + 1]);
        lemma_config_lookup_found(b1, key, value);
    }
}

/// Rewriting only the rows that carry `key` leaves every other lookup as it
/// was, also when one row carrying `key` is appended.
proof fn lemma_config_lookup_unaffected(
    a: Seq<ConfigDb>,
    b: Seq<ConfigDb>,
    key: Seq<char>,
    q: Seq<char>,
)
    requires
        b.len() == a.len() || b.len() == a.len() + 1,
        forall|k: int| 0 <= k < a.len() ==> (#[trigger] b[k]).key@ == a[k].key@,
        forall|k: int| 0 <= k < a.len() && (#[trigger] a[k]).key@ != key ==> b[k] == a[k],
        b.len() == a.len() + 1 ==> b.last().key@ == key,
        q != key,
    ensures
        Store::spec_config_lookup(b, q) == Store::spec_config_lookup(a, q),
    decreases a.len(),
{
    if a.len() == 0 {
        if b.len() == 1 {
            assert(b[0] == b.last());
            assert(b.drop_first().len() == 0);
        }
    } else {
        let a1 = a.drop_first();
        let b1 = b.drop_first();
        assert(forall|k: int| 0 <= k < a1.len() ==> #[trigger] a1[k] == a[k + 1]);
        assert(forall|k: int| 0 <= k < b1.len() ==> #[trigger] b1[k] == b[k + 1]);
        if b.len() == a.len() + 1 {
            assert(b1.last() == b.last());
        }
        if a[0].key@ == q {
            assert(a[0].key@ != key);
            assert(b[0] == a[0]);
        } else {
            assert(b[0].key@ == a[0].key@);
            lemma_config_lookup_unaffected(a1, b1, key, q);
        }
    }
}

} // verus!
