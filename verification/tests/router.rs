//! The command router: request parsing, replies, and the side effects of
//! each command.

use arti_chat_daemon::db::{init_database, ContactDb, Store};
use arti_chat_daemon::ipc::retain_live;
use arti_chat_daemon::rpc::{
    parse_command, reply_rpc_error, route, success_reply, value_reply, RouteAction, RpcCommand,
};
use arti_chat_daemon::error::RpcError;
use arti_chat_daemon::ui_focus::FocusState;

const B_ID: &str = "bbbbbbbbbbbbbbbbbbbbbbbbbbbbbbbbbbbbbbbbbbbbbbbbbbbbbbbb";
const SELF_ID: &str = "aaaaaaaaaaaaaaaaaaaaaaaaaaaaaaaaaaaaaaaaaaaaaaaaaaaaaaaa";

fn parse(line: &str) -> RpcCommand {
    parse_command(&line.as_bytes().to_vec()).unwrap()
}

fn store_with_b() -> Store {
    let mut s = init_database();
    s.insert_contact(ContactDb {
        onion_id: B_ID.to_string(),
        nickname: "bee".to_string(),
        public_key: "00".repeat(32),
        last_viewed_at: 0,
    })
    .unwrap();
    s
}

fn run(cmd: &RpcCommand, store: &mut Store, now: i64) -> arti_chat_daemon::rpc::RouteOutcome {
    let mut focus = FocusState::init();
    let secret = [3u8; 32];
    route(cmd, store, &mut focus, &secret, SELF_ID, now)
}

#[test]
fn parse_recognizes_every_command_tag() {
    assert!(matches!(parse("{\"cmd\":\"LoadContacts\"}"), RpcCommand::LoadContacts));
    assert!(matches!(parse("{\"cmd\":\"LoadUser\"}"), RpcCommand::LoadUser));
    assert!(matches!(parse("{\"cmd\":\"DeleteAllContacts\"}"), RpcCommand::DeleteAllContacts));
    assert!(matches!(parse("{\"cmd\":\"ResetTorCircuit\"}"), RpcCommand::ResetTorCircuit));
    assert!(matches!(parse("{\"cmd\":\"PingHiddenService\"}"), RpcCommand::PingHiddenService));
    assert!(matches!(parse("{\"cmd\":\"PingDaemon\"}"), RpcCommand::PingDaemon));
    match parse("{\"cmd\":\"LoadChat\",\"onion_id\":\"xy\"}") {
        RpcCommand::LoadChat { onion_id } => assert_eq!(onion_id, "xy"),
        _ => panic!("wrong command"),
    }
    match parse("{\"cmd\":\"SendMessage\",\"to\":\"bb\",\"text\":\"hello\"}") {
        RpcCommand::SendMessage { to, text } => {
            assert_eq!(to, "bb");
            assert_eq!(text, "hello");
        },
        _ => panic!("wrong command"),
    }
    match parse("{\"cmd\":\"AddContact\",\"nickname\":\"n\",\"onion_id\":\"o\",\"public_key\":\"k\"}") {
        RpcCommand::AddContact { nickname, onion_id, public_key } => {
            assert_eq!(nickname, "n");
            assert_eq!(onion_id, "o");
            assert_eq!(public_key, "k");
        },
        _ => panic!("wrong command"),
    }
    match parse("{\"cmd\":\"UpdateContact\",\"onion_id\":\"o\",\"nickname\":null,\"public_key\":\"k\"}") {
        RpcCommand::UpdateContact { onion_id, nickname, public_key } => {
            assert_eq!(onion_id, "o");
            assert!(nickname.is_none());
            assert_eq!(public_key.unwrap(), "k");
        },
        _ => panic!("wrong command"),
    }
    match parse("{\"cmd\":\"UpdateUser\",\"public_key\":null,\"private_key\":null}") {
        RpcCommand::UpdateUser { public_key, private_key } => {
            assert!(public_key.is_none() && private_key.is_none());
        },
        _ => panic!("wrong command"),
    }
    match parse("{\"cmd\":\"SendAppFocusState\",\"focussed\":true}") {
        RpcCommand::SendAppFocusState { focussed } => assert!(focussed),
        _ => panic!("wrong command"),
    }
    match parse("{\"cmd\":\"SendAppFocusState\",\"focussed\":false}") {
        RpcCommand::SendAppFocusState { focussed } => assert!(!focussed),
        _ => panic!("wrong command"),
    }
    match parse("{\"cmd\":\"SetConfigValue\",\"key\":\"a\",\"value\":\"b\"}") {
        RpcCommand::SetConfigValue { key, value } => {
            assert_eq!(key, "a");
            assert_eq!(value, "b");
        },
        _ => panic!("wrong command"),
    }
    assert!(matches!(
        parse("{\"cmd\":\"DeleteContact\",\"onion_id\":\"o\"}"),
        RpcCommand::DeleteContact { .. }
    ));
    assert!(matches!(
        parse("{\"cmd\":\"DeleteContactMessages\",\"onion_id\":\"o\"}"),
        RpcCommand::DeleteContactMessages { .. }
    ));
    assert!(matches!(
        parse("{\"cmd\":\"GetConfigValue\",\"key\":\"k\"}"),
        RpcCommand::GetConfigValue { .. }
    ));
    assert!(matches!(
        parse("{\"cmd\":\"UpdateUser\",\"public_key\":\"pk\",\"private_key\":null}"),
        RpcCommand::UpdateUser { public_key: Some(_), private_key: None }
    ));
}

#[test]
fn parse_accepts_the_serializer_orders_and_escapes() {
    // alphabetical key order, as a sorted-map serializer emits it
    match parse("{\"cmd\":\"SendMessage\",\"text\":\"hello\",\"to\":\"bb\"}") {
        RpcCommand::SendMessage { to, text } => {
            assert_eq!(to, "bb");
            assert_eq!(text, "hello");
        },
        _ => panic!("wrong command"),
    }
    match parse("{\"cmd\":\"UpdateContact\",\"nickname\":\"n\",\"onion_id\":\"o\",\"public_key\":null}") {
        RpcCommand::UpdateContact { onion_id, nickname, public_key } => {
            assert_eq!(onion_id, "o");
            assert_eq!(nickname.unwrap(), "n");
            assert!(public_key.is_none());
        },
        _ => panic!("wrong command"),
    }
    match parse("{\"cmd\":\"UpdateUser\",\"private_key\":\"sk\",\"public_key\":\"pk\"}") {
        RpcCommand::UpdateUser { public_key, private_key } => {
            assert_eq!(public_key.unwrap(), "pk");
            assert_eq!(private_key.unwrap(), "sk");
        },
        _ => panic!("wrong command"),
    }
    // standard JSON escapes in string values
    match parse("{\"cmd\":\"SendMessage\",\"to\":\"bb\",\"text\":\"line one\\nline two\\ttabbed \\u0001\"}") {
        RpcCommand::SendMessage { text, .. } => {
            assert_eq!(text, "line one\nline two\ttabbed \u{1}");
        },
        _ => panic!("wrong command"),
    }
    // what serde_json itself emits round-trips through the parser
    let mut m = serde_json::Map::new();
    m.insert("cmd".to_string(), serde_json::Value::String("SendMessage".to_string()));
    m.insert("to".to_string(), serde_json::Value::String("bb".to_string()));
    m.insert(
        "text".to_string(),
        serde_json::Value::String("multi\nline \"quoted\" \\ text \u{7}".to_string()),
    );
    let line = serde_json::to_string(&serde_json::Value::Object(m)).unwrap();
    match parse(&line) {
        RpcCommand::SendMessage { to, text } => {
            assert_eq!(to, "bb");
            assert_eq!(text, "multi\nline \"quoted\" \\ text \u{7}");
        },
        _ => panic!("wrong command"),
    }
}

#[test]
fn parse_rejects_malformed_lines() {
    for bad in [
        "",
        "{}",
        "{\"cmd\":\"NoSuchCommand\"}",
        "{\"cmd\":\"LoadContacts\"} ",
        "{\"cmd\":\"LoadContacts\",\"extra\":1}",
        "{\"cmd\":\"LoadChat\"}",
        "{\"cmd\":\"SendAppFocusState\",\"focussed\":maybe}",
        "{\"cmd\":\"LoadChat\",\"onion_id\":\"x}",
    ] {
        assert!(parse_command(&bad.as_bytes().to_vec()).is_err(), "accepted: {bad}");
    }
}

#[test]
fn send_message_inserts_then_acts() {
    // interactive send: insert with delivered unset, then hand the framed
    // payload out for delivery
    let mut s = store_with_b();
    let cmd = parse(&format!("{{\"cmd\":\"SendMessage\",\"to\":\"{B_ID}\",\"text\":\"hello\"}}"));
    let out = run(&cmd, &mut s, 1_000);
    assert_eq!(s.messages.len(), 1);
    assert_eq!(s.messages[0].body, "hello");
    assert!(!s.messages[0].sent_status);
    assert!(!s.messages[0].is_incoming);
    assert_eq!(s.messages[0].timestamp, 1_000);
    match out.action.unwrap() {
        RouteAction::SendPayload { to, frame, message_id } => {
            assert_eq!(to, B_ID);
            assert_eq!(message_id, 1);
            assert_eq!(*frame.last().unwrap(), 0u8);
        },
        _ => panic!("wrong action"),
    }
    // delivery succeeded: the follow-up marks the row and hints a reload
    let event =
        arti_chat_daemon::dispatch::send_message_follow_up(&mut s, 1, B_ID, true);
    assert!(s.messages[0].sent_status);
    assert_eq!(String::from_utf8(event).unwrap(), format!("{{\"onion_id\":\"{B_ID}\"}}\n"));
}

#[test]
fn send_message_to_unknown_contact_reports_error() {
    let mut s = init_database();
    let cmd = parse("{\"cmd\":\"SendMessage\",\"to\":\"nobody\",\"text\":\"x\"}");
    let out = run(&cmd, &mut s, 1_000);
    assert!(out.action.is_none());
    let reply = String::from_utf8(out.reply.unwrap()).unwrap();
    assert_eq!(reply, "{\"error\":\"unknown contact\"}\n");
    assert!(s.messages.is_empty());
}

#[test]
fn get_config_value_returns_default_true() {
    // default for the notification flag is "true"
    let mut s = init_database();
    let cmd = parse("{\"cmd\":\"GetConfigValue\",\"key\":\"enable_notifications\"}");
    let out = run(&cmd, &mut s, 0);
    assert_eq!(String::from_utf8(out.reply.unwrap()).unwrap(), "{\"value\":\"true\"}\n");
    let set = parse(
        "{\"cmd\":\"SetConfigValue\",\"key\":\"enable_notifications\",\"value\":\"false\"}",
    );
    let out2 = run(&set, &mut s, 0);
    assert!(out2.reply.is_none());
    let out3 = run(&cmd, &mut s, 0);
    assert_eq!(String::from_utf8(out3.reply.unwrap()).unwrap(), "{\"value\":\"false\"}\n");
}

#[test]
fn delete_contact_command_cascades() {
    // deleting a contact removes its rows and reports success
    let mut s = store_with_b();
    s.insert_message(arti_chat_daemon::db::MessageDb {
        id: 0,
        contact_onion_id: B_ID.to_string(),
        body: "x".to_string(),
        timestamp: 5,
        is_incoming: true,
        sent_status: false,
        verified_status: false,
    })
    .unwrap();
    let cmd = parse(&format!("{{\"cmd\":\"DeleteContact\",\"onion_id\":\"{B_ID}\"}}"));
    let out = run(&cmd, &mut s, 10);
    assert!(s.contacts.is_empty());
    assert!(s.messages.is_empty());
    assert_eq!(String::from_utf8(out.reply.unwrap()).unwrap(), "{\"success\":true}\n");
}

#[test]
fn add_contact_reports_duplicate_as_failure() {
    let mut s = store_with_b();
    let cmd = parse(&format!(
        "{{\"cmd\":\"AddContact\",\"nickname\":\"n\",\"onion_id\":\"{B_ID}\",\"public_key\":\"k\"}}"
    ));
    let out = run(&cmd, &mut s, 10);
    assert_eq!(String::from_utf8(out.reply.unwrap()).unwrap(), "{\"success\":false}\n");
    let cmd2 = parse(
        "{\"cmd\":\"AddContact\",\"nickname\":\"n\",\"onion_id\":\"cc\",\"public_key\":\"k\"}",
    );
    let out2 = run(&cmd2, &mut s, 10);
    assert_eq!(String::from_utf8(out2.reply.unwrap()).unwrap(), "{\"success\":true}\n");
    assert_eq!(s.contacts.len(), 2);
}

#[test]
fn load_contacts_reply_is_json_with_activity() {
    let mut s = store_with_b();
    s.insert_message(arti_chat_daemon::db::MessageDb {
        id: 0,
        contact_onion_id: B_ID.to_string(),
        body: "x".to_string(),
        timestamp: 50,
        is_incoming: true,
        sent_status: false,
        verified_status: true,
    })
    .unwrap();
    let out = run(&parse("{\"cmd\":\"LoadContacts\"}"), &mut s, 60);
    let reply = out.reply.unwrap();
    let v: serde_json::Value = serde_json::from_slice(&reply).unwrap();
    let c = &v["contacts"][0];
    assert_eq!(c["onion_id"], B_ID);
    assert_eq!(c["nickname"], "bee");
    assert_eq!(c["last_message_at"], 50);
    assert_eq!(c["unread_count"], 1);
}

#[test]
fn load_chat_reply_is_json_and_marks_viewed() {
    let mut s = store_with_b();
    s.insert_message(arti_chat_daemon::db::MessageDb {
        id: 0,
        contact_onion_id: B_ID.to_string(),
        body: "x".to_string(),
        timestamp: 50,
        is_incoming: true,
        sent_status: false,
        verified_status: true,
    })
    .unwrap();
    let out = run(&parse(&format!("{{\"cmd\":\"LoadChat\",\"onion_id\":\"{B_ID}\"}}")), &mut s, 70);
    let v: serde_json::Value = serde_json::from_slice(&out.reply.unwrap()).unwrap();
    assert_eq!(v["messages"][0]["body"], "x");
    assert_eq!(v["messages"][0]["is_incoming"], true);
    assert_eq!(s.contacts[0].last_viewed_at, 70);
}

#[test]
fn load_user_round_trips() {
    let mut s = init_database();
    arti_chat_daemon::identity::ensure_identity(&mut s, SELF_ID).unwrap();
    let out = run(&parse("{\"cmd\":\"LoadUser\"}"), &mut s, 0);
    let v: serde_json::Value = serde_json::from_slice(&out.reply.unwrap()).unwrap();
    assert_eq!(v["user"]["onion_id"], SELF_ID);
    assert_eq!(v["user"]["nickname"], "Me");
}

#[test]
fn ping_and_probe_commands() {
    let mut s = init_database();
    let out = run(&parse("{\"cmd\":\"PingDaemon\"}"), &mut s, 0);
    assert_eq!(String::from_utf8(out.reply.unwrap()).unwrap(), "{\"success\":true}\n");
    let out2 = run(&parse("{\"cmd\":\"PingHiddenService\"}"), &mut s, 0);
    assert!(matches!(out2.action, Some(RouteAction::ProbeHiddenService)));
    let out3 = run(&parse("{\"cmd\":\"ResetTorCircuit\"}"), &mut s, 0);
    assert!(matches!(out3.action, Some(RouteAction::ResetCircuit)));
}

#[test]
fn focus_state_command_updates_state() {
    let mut s = init_database();
    let mut focus = FocusState::init();
    let secret = [3u8; 32];
    route(
        &parse("{\"cmd\":\"SendAppFocusState\",\"focussed\":false}"),
        &mut s,
        &mut focus,
        &secret,
        SELF_ID,
        0,
    );
    assert!(!arti_chat_daemon::ui_focus::is_focussed(&focus));
}

#[test]
fn reply_encoders_produce_exact_lines() {
    assert_eq!(String::from_utf8(success_reply(false)).unwrap(), "{\"success\":false}\n");
    assert_eq!(String::from_utf8(value_reply("v\"x")).unwrap(), "{\"value\":\"v\\\"x\"}\n");
    let e = reply_rpc_error(&RpcError::MalformedCommand);
    assert_eq!(String::from_utf8(e).unwrap(), "{\"error\":\"malformed command\"}\n");
}

#[test]
fn dead_subscribers_leave_the_sink_list() {
    // the liveness rule: after one broadcast attempt, only the sinks whose
    // send succeeded remain
    let subs: Vec<u64> = vec![1, 2, 3];
    let delivered: Vec<bool> = vec![true, false, true];
    assert_eq!(retain_live(&subs, &delivered), vec![1, 3]);
    assert_eq!(retain_live(&vec![], &vec![]), Vec::<u64>::new());
}

#[test]
fn replies_escape_control_characters() {
    // a message body with newlines must still give a single, valid JSON line
    let mut s = store_with_b();
    s.insert_message(arti_chat_daemon::db::MessageDb {
        id: 0,
        contact_onion_id: B_ID.to_string(),
        body: "line one\nline \"two\"\u{1}".to_string(),
        timestamp: 50,
        is_incoming: true,
        sent_status: false,
        verified_status: true,
    })
    .unwrap();
    let out = run(&parse(&format!("{{\"cmd\":\"LoadChat\",\"onion_id\":\"{B_ID}\"}}")), &mut s, 70);
    let reply = out.reply.unwrap();
    // exactly one newline: the line terminator
    assert_eq!(reply.iter().filter(|&&b| b == b'\n').count(), 1);
    assert_eq!(*reply.last().unwrap(), b'\n');
    let v: serde_json::Value = serde_json::from_slice(&reply).unwrap();
    assert_eq!(v["messages"][0]["body"], "line one\nline \"two\"\u{1}");
}
