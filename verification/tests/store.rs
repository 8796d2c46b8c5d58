//! Store behaviour: defaults, activity queries, retry window, cascade.

use arti_chat_daemon::db::{
    init_database, ContactDb, MessageDb, Store, UpdateMessageDb, RETRY_MAX_AGE, RETRY_MIN_AGE,
};

fn contact(id: &str, last_viewed: i64) -> ContactDb {
    ContactDb {
        onion_id: id.to_string(),
        nickname: format!("nick-{id}"),
        public_key: "00".repeat(32),
        last_viewed_at: last_viewed,
    }
}

fn message(id_of_contact: &str, ts: i64, incoming: bool, sent: bool) -> MessageDb {
    MessageDb {
        id: 0,
        contact_onion_id: id_of_contact.to_string(),
        body: format!("m-{ts}"),
        timestamp: ts,
        is_incoming: incoming,
        sent_status: sent,
        verified_status: false,
    }
}

fn store_with_contact(id: &str, last_viewed: i64) -> Store {
    let mut s = init_database();
    s.insert_contact(contact(id, last_viewed)).unwrap();
    s
}

#[test]
fn config_defaults_are_true() {
    let s = init_database();
    assert_eq!(s.config_get("enable_notifications").unwrap(), "true");
    assert_eq!(s.config_get("enable_attachments").unwrap(), "true");
    assert!(s.config_get("no_such_key").is_none());
}

#[test]
fn config_set_round_trips() {
    let mut s = init_database();
    s.config_set("enable_notifications", "false").unwrap();
    assert_eq!(s.config_get("enable_notifications").unwrap(), "false");
    assert_eq!(s.config_get("enable_attachments").unwrap(), "true");
    assert!(s.config_set("bogus", "x").is_err());
}

#[test]
fn duplicate_contact_is_refused() {
    let mut s = store_with_contact("bbbb", 0);
    assert!(s.insert_contact(contact("bbbb", 0)).is_err());
    assert!(s.insert_contact(contact("cccc", 0)).is_ok());
}

#[test]
fn message_requires_known_contact() {
    let mut s = init_database();
    assert!(s.insert_message(message("nobody", 5, true, false)).is_err());
}

#[test]
fn message_ids_are_monotone() {
    let mut s = store_with_contact("bbbb", 0);
    let a = s.insert_message(message("bbbb", 5, true, false)).unwrap();
    let b = s.insert_message(message("bbbb", 6, true, false)).unwrap();
    assert_eq!(a.expect_i64().unwrap(), 1);
    assert_eq!(b.expect_i64().unwrap(), 2);
}

#[test]
fn unread_count_counts_new_inbound_only() {
    // three records: two inbound after last_viewed_at, one before, one outbound
    let mut s = store_with_contact("bbbb", 100);
    s.insert_message(message("bbbb", 90, true, false)).unwrap();
    s.insert_message(message("bbbb", 150, true, false)).unwrap();
    s.insert_message(message("bbbb", 160, true, false)).unwrap();
    s.insert_message(message("bbbb", 170, false, true)).unwrap();
    let cs = s.contacts_with_unread();
    assert_eq!(cs.len(), 1);
    assert_eq!(cs[0].unread_count, 2);
    assert_eq!(cs[0].last_message_at, 170);
    assert_eq!(cs[0].last_viewed_at, 100);
}

#[test]
fn viewing_a_chat_clears_unread() {
    let mut s = store_with_contact("bbbb", 0);
    s.insert_message(message("bbbb", 150, true, false)).unwrap();
    s.insert_message(message("bbbb", 160, true, false)).unwrap();
    let ms = s.messages_with("bbbb", 200);
    assert_eq!(ms.len(), 2);
    // newest first
    assert_eq!(ms[0].timestamp, 160);
    assert_eq!(ms[1].timestamp, 150);
    let cs = s.contacts_with_unread();
    assert_eq!(cs[0].unread_count, 0);
    assert_eq!(cs[0].last_viewed_at, 200);
}

#[test]
fn contacts_sorted_by_activity() {
    let mut s = init_database();
    s.insert_contact(contact("aaaa", 0)).unwrap();
    s.insert_contact(contact("bbbb", 0)).unwrap();
    s.insert_message(message("aaaa", 50, true, false)).unwrap();
    s.insert_message(message("bbbb", 80, true, false)).unwrap();
    let cs = s.contacts_with_unread();
    assert_eq!(cs[0].onion_id, "bbbb");
    assert_eq!(cs[1].onion_id, "aaaa");
}

#[test]
fn retry_window_bounds() {
    let now: i64 = 1_000_000;
    let mut s = store_with_contact("bbbb", 0);
    // ages: 29 (too young), 30, 45, 300, 301 (too old)
    for age in [29i64, 30, 45, 300, 301] {
        s.insert_message(message("bbbb", now - age, false, false)).unwrap();
    }
    // a delivered one and an inbound one are never eligible
    s.insert_message(message("bbbb", now - 45, false, true)).unwrap();
    s.insert_message(message("bbbb", now - 45, true, false)).unwrap();
    let failed = s.failed_messages(now);
    let ages: Vec<i64> = failed.iter().map(|m| now - m.timestamp).collect();
    assert_eq!(ages, vec![30, 45, 300]);
    assert!(RETRY_MIN_AGE == 30 && RETRY_MAX_AGE == 300);
}

#[test]
fn update_message_marks_delivery() {
    let mut s = store_with_contact("bbbb", 0);
    let id = s.insert_message(message("bbbb", 10, false, false)).unwrap().expect_i64().unwrap();
    s.update_message(&UpdateMessageDb { id, sent_status: Some(true) });
    let ms = s.messages_with("bbbb", 20);
    assert!(ms[0].sent_status);
}

#[test]
fn cascade_delete_removes_messages() {
    let mut s = init_database();
    s.insert_contact(contact("bbbb", 0)).unwrap();
    s.insert_contact(contact("cccc", 0)).unwrap();
    s.insert_message(message("bbbb", 10, true, false)).unwrap();
    s.insert_message(message("cccc", 11, true, false)).unwrap();
    s.delete_contact("bbbb");
    assert_eq!(s.contacts.len(), 1);
    assert_eq!(s.messages.len(), 1);
    assert_eq!(s.messages[0].contact_onion_id, "cccc");
    assert!(s.retrieve_contact("bbbb").is_err());
}

#[test]
fn delete_all_contacts_empties_messages() {
    let mut s = init_database();
    s.insert_contact(contact("bbbb", 0)).unwrap();
    s.insert_message(message("bbbb", 10, true, false)).unwrap();
    s.delete_all_contacts();
    assert!(s.contacts.is_empty());
    assert!(s.messages.is_empty());
}
