use chat_core::heartbeat::{heartbeat_check, HeartbeatAction, CLIENT_TIMEOUT_MS};
use chat_core::log::{is_heartbeat, without_heartbeats, ChannelLog, ChatMessage};
use chat_core::presence::PresenceTracker;
use chat_core::registry::BroadcastRegistry;
use chat_core::session::{ChatSession, ChatState};
use chat_core::store::{first_free_key, key_from_store, store_key};

fn texts_to(deliveries: &[chat_core::registry::Delivery], to: u64) -> Vec<String> {
    deliveries.iter().filter(|d| d.to == to).map(|d| d.text.clone()).collect()
}

#[test]
fn registry_register_and_unregister() {
    let mut r = BroadcastRegistry::new();
    r.register("general", 1);
    r.register("general", 2);
    r.register("random", 3);
    assert_eq!(r.members_of("general"), vec![1, 2]);
    assert_eq!(r.members_of("random"), vec![3]);
    r.unregister("general", 1);
    assert_eq!(r.members_of("general"), vec![2]);
    r.unregister("general", 2);
    assert_eq!(r.members_of("general"), Vec::<u64>::new());
    assert_eq!(r.members_of("random"), vec![3]);
}

#[test]
fn registry_never_holds_a_session_twice() {
    let mut r = BroadcastRegistry::new();
    r.register("general", 7);
    r.register("general", 7);
    assert_eq!(r.members_of("general"), vec![7]);
    r.unregister("general", 7);
    assert!(r.members_of("general").is_empty());
    r.unregister("general", 7);
    assert!(r.members_of("general").is_empty());
}

#[test]
fn registry_unregister_of_unknown_channel_is_harmless() {
    let mut r = BroadcastRegistry::new();
    r.register("a", 1);
    r.unregister("b", 1);
    assert_eq!(r.members_of("a"), vec![1]);
    assert!(r.members_of("b").is_empty());
}

#[test]
fn registry_broadcast_reaches_members_in_order() {
    let mut r = BroadcastRegistry::new();
    r.register("general", 5);
    r.register("general", 4);
    r.register("other", 9);
    let d = r.broadcast("general", "hi");
    assert_eq!(d.len(), 2);
    assert_eq!(d[0].to, 5);
    assert_eq!(d[1].to, 4);
    assert_eq!(d[0].text, "hi");
    assert_eq!(d[1].text, "hi");
    assert!(r.broadcast("nobody", "hi").is_empty());
}

#[test]
fn log_append_then_read_all_in_write_order() {
    let mut log = ChannelLog::new(0);
    assert_eq!(log.append("general", "alice", "one", "2024-01-01 10:00:00.000"), Some(0));
    assert_eq!(log.append("general", "bob", "two", "2024-01-01 10:00:00.000"), Some(1));
    assert_eq!(log.append("other", "carol", "elsewhere", "2024-01-01 10:00:00.001"), Some(2));
    assert_eq!(log.append("general", "alice", "three", "2024-01-01 09:59:59.999"), Some(3));
    let msgs = log.read_all("general");
    let got: Vec<(&str, &str, &str)> =
        msgs.iter().map(|m| (m.timestamp.as_str(), m.username.as_str(), m.message.as_str())).collect();
    assert_eq!(
        got,
        vec![
            ("2024-01-01 10:00:00.000", "alice", "one"),
            ("2024-01-01 10:00:00.000", "bob", "two"),
            ("2024-01-01 09:59:59.999", "alice", "three"),
        ]
    );
    assert_eq!(log.read_all("other").len(), 1);
}

#[test]
fn log_unknown_channel_is_empty() {
    let log = ChannelLog::new(0);
    assert!(log.read_all("nowhere").is_empty());
}

#[test]
fn log_thousand_rapid_appends_are_all_kept() {
    let mut log = ChannelLog::new(0);
    let mut keys = Vec::new();
    for i in 0..1000 {
        let k = log.append("fast", "u", &format!("m{}", i), "2024-01-01 00:00:00.000").unwrap();
        keys.push(k);
    }
    for w in keys.windows(2) {
        assert!(w[0] < w[1]);
    }
    let msgs = log.read_all("fast");
    assert_eq!(msgs.len(), 1000);
    for (i, m) in msgs.iter().enumerate() {
        assert_eq!(m.message, format!("m{}", i));
    }
}

#[test]
fn log_ping_is_never_read_back() {
    let mut log = ChannelLog::new(0);
    log.append("general", "alice", "ping", "t0");
    log.append("general", "alice", "pinged", "t1");
    log.append("general", "alice", "ping ", "t2");
    let msgs = log.read_all("general");
    let contents: Vec<&str> = msgs.iter().map(|m| m.message.as_str()).collect();
    assert_eq!(contents, vec!["pinged", "ping "]);
}

#[test]
fn log_append_fails_once_keys_run_out() {
    let mut log = ChannelLog::new(u64::MAX - 1);
    assert_eq!(log.append("c", "u", "last", "t"), Some(u64::MAX - 1));
    assert_eq!(log.append("c", "u", "too many", "t"), None);
    assert_eq!(log.read_all("c").len(), 1);
    assert_eq!(log.peek_next_key(), u64::MAX);
}

#[test]
fn heartbeat_text_is_recognised_exactly() {
    assert!(is_heartbeat("ping"));
    assert!(!is_heartbeat("Ping"));
    assert!(!is_heartbeat("ping!"));
    assert!(!is_heartbeat(""));
}

#[test]
fn without_heartbeats_filters_stored_history() {
    let msgs = vec![
        ChatMessage::new("t1", "a", "hello"),
        ChatMessage::new("t2", "a", "ping"),
        ChatMessage::new("t3", "b", "bye"),
    ];
    let kept = without_heartbeats(&msgs);
    let contents: Vec<&str> = kept.iter().map(|m| m.message.as_str()).collect();
    assert_eq!(contents, vec!["hello", "bye"]);
    assert_eq!(kept[1].timestamp, "t3");
}

#[test]
fn presence_set_status_twice_keeps_one_record() {
    let mut p = PresenceTracker::new();
    p.set_status("general", "alice", true, "t1");
    p.set_status("general", "alice", true, "t1");
    let l = p.list_statuses("general");
    assert_eq!(l.len(), 1);
    assert_eq!(l[0].username, "alice");
    assert!(l[0].online);
    assert_eq!(l[0].timestamp, "t1");
}

#[test]
fn presence_overwrites_and_keeps_offline_users() {
    let mut p = PresenceTracker::new();
    p.set_status("general", "alice", true, "t1");
    p.set_status("general", "bob", true, "t2");
    p.set_status("other", "alice", true, "t3");
    p.set_status("general", "alice", false, "t4");
    let l = p.list_statuses("general");
    assert_eq!(l.len(), 2);
    let alice = l.iter().find(|s| s.username == "alice").unwrap();
    assert!(!alice.online);
    assert_eq!(alice.timestamp, "t4");
    assert_eq!(alice.status_text(), "Offline");
    let bob = l.iter().find(|s| s.username == "bob").unwrap();
    assert_eq!(bob.status_text(), "Online");
    assert_eq!(p.list_statuses("other").len(), 1);
    assert!(p.list_statuses("empty").is_empty());
}

#[test]
fn heartbeat_check_values() {
    assert_eq!(heartbeat_check(1000, 1000), HeartbeatAction::SendPing);
    assert_eq!(heartbeat_check(1000, 1000 + CLIENT_TIMEOUT_MS), HeartbeatAction::SendPing);
    assert_eq!(heartbeat_check(1000, 1001 + CLIENT_TIMEOUT_MS), HeartbeatAction::Stop);
    assert_eq!(heartbeat_check(5000, 10), HeartbeatAction::SendPing);
}

#[test]
fn store_key_is_big_endian() {
    assert_eq!(store_key(0x0102030405060708), vec![1, 2, 3, 4, 5, 6, 7, 8]);
    assert_eq!(store_key(1), vec![0, 0, 0, 0, 0, 0, 0, 1]);
    assert_eq!(key_from_store(&store_key(123456789)), Some(123456789));
    assert_eq!(key_from_store(&[1, 2, 3]), None);
    assert!(store_key(255) < store_key(256));
    assert!(store_key(0x00ff_ffff_ffff_ffff) < store_key(0x0100_0000_0000_0000));
    assert!(store_key(41) < store_key(u64::MAX));
}

#[test]
fn scenario_alice_and_bob_in_general() {
    let mut state = ChatState::new(0);
    let mut alice = ChatSession::new(1, "alice".to_string(), "general".to_string(), 0);
    let join = alice.started(&mut state, "t1");
    assert_eq!(texts_to(&join.deliveries, 1), vec!["alice joined the chat".to_string()]);
    assert_eq!(state.sessions.members_of("general"), vec![1]);
    let history = state.messages.read_all("general");
    assert_eq!(history.len(), 1);
    assert_eq!(history[0].username, "system");
    assert_eq!(history[0].message, "alice joined the chat");

    let mut bob = ChatSession::new(2, "bob".to_string(), "general".to_string(), 0);
    let join = bob.started(&mut state, "t2");
    assert_eq!(texts_to(&join.deliveries, 1), vec!["bob joined the chat".to_string()]);
    assert_eq!(texts_to(&join.deliveries, 2), vec!["bob joined the chat".to_string()]);

    let sent = bob.handle_text(&mut state, "hello", "t3", 100);
    let stored = sent.stored.as_ref().unwrap();
    assert_eq!(stored.key, 2);
    assert_eq!(stored.channel, "general");
    assert_eq!(stored.message.message, "hello");
    assert!(sent.status.is_none());
    assert_eq!(texts_to(&sent.deliveries, 1), vec!["bob: hello".to_string()]);
    assert_eq!(texts_to(&sent.deliveries, 2), vec!["bob: hello".to_string()]);
    let history = state.messages.read_all("general");
    assert!(history.iter().any(|m| m.username == "bob" && m.message == "hello" && m.timestamp == "t3"));

    let left = alice.stopped(&mut state, "t4");
    let st = left.status.as_ref().unwrap();
    assert_eq!(st.username, "alice");
    assert!(!st.online);
    assert_eq!(left.stored.as_ref().unwrap().message.message, "alice left the chat");
    assert_eq!(state.sessions.members_of("general"), vec![2]);
    assert_eq!(texts_to(&left.deliveries, 2), vec!["alice left the chat".to_string()]);
    assert!(texts_to(&left.deliveries, 1).is_empty());
    let statuses = state.statuses.list_statuses("general");
    let a = statuses.iter().find(|s| s.username == "alice").unwrap();
    assert!(!a.online);
    let b = statuses.iter().find(|s| s.username == "bob").unwrap();
    assert!(b.online);
    let _ = alice.handle_pong(5);
}

#[test]
fn ping_text_is_not_logged_or_relayed() {
    let mut state = ChatState::new(0);
    let mut s = ChatSession::new(1, "alice".to_string(), "general".to_string(), 0);
    s.started(&mut state, "t1");
    let before = state.messages.read_all("general").len();
    let out = s.handle_text(&mut state, "ping", "t2", 50);
    assert!(out.deliveries.is_empty());
    assert!(out.stored.is_none());
    assert!(out.status.is_none());
    assert_eq!(state.messages.read_all("general").len(), before);
    assert_eq!(s.hb, 0);
}

#[test]
fn scenario_heartbeat_timeout_stops_session() {
    let mut state = ChatState::new(0);
    let mut alice = ChatSession::new(1, "alice".to_string(), "general".to_string(), 0);
    let bob = ChatSession::new(2, "bob".to_string(), "general".to_string(), 0);
    alice.started(&mut state, "t0");
    bob.started(&mut state, "t0");
    alice.handle_pong(4000);
    assert_eq!(alice.heartbeat(9000), HeartbeatAction::SendPing);
    assert_eq!(alice.heartbeat(4000 + CLIENT_TIMEOUT_MS + 1000), HeartbeatAction::Stop);
    let left = alice.stopped(&mut state, "t9");
    assert_eq!(texts_to(&left.deliveries, 2), vec!["alice left the chat".to_string()]);
    assert_eq!(state.sessions.members_of("general"), vec![2]);
    let history = state.messages.read_all("general");
    assert_eq!(history.last().unwrap().message, "alice left the chat");
}

#[test]
fn text_marks_session_alive() {
    let mut state = ChatState::new(0);
    let mut s = ChatSession::new(1, "u".to_string(), "c".to_string(), 0);
    s.started(&mut state, "t");
    let _ = s.handle_text(&mut state, "hi", "t", 7000);
    assert_eq!(s.hb, 7000);
    assert_eq!(s.heartbeat(7000 + CLIENT_TIMEOUT_MS), HeartbeatAction::SendPing);
}

#[test]
fn first_free_key_follows_highest_stored_key() {
    assert_eq!(first_free_key(&vec![]), 0);
    assert_eq!(first_free_key(&vec![4, 17, 9]), 18);
    assert_eq!(first_free_key(&vec![0]), 1);
    assert_eq!(first_free_key(&vec![3, u64::MAX]), u64::MAX);
}
