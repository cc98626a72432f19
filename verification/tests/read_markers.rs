//! What is known as read.
use repartee::app::{App, Config, IrcHandle, TypingConfig};
use repartee::collections::StrMap;
use repartee::irc_events::reconnect_markers;
use repartee::mouse::{FocusEvent, MouseButton, MouseKind};
use repartee::read_markers::{
    confirmed_read_marker, handle_read_marker, mark_terminal_read, mark_visible_message_read, parse_marker,
    tick_read_markers, Boundary, Marker, MarkerOutcome, ReadMarkers, TerminalRead, PENDING_MAX,
    ROUND_BUDGET,
};
use repartee::state::{Buffer, BufferType, ConnectionStatus, Message, MessageType, ServerConfig};
use repartee::wire::IrcSender;

#[test]
fn markers_accept_unknown_and_millisecond_timestamps() {
    assert_eq!(parse_marker("*"), Some(Marker::Unknown));
    assert_eq!(
        parse_marker("timestamp=2024-01-01T00:00:00.123Z"),
        Some(Marker::Timestamp(1_704_067_200_123))
    );
    assert!(parse_marker("msgid=123").is_none());
    assert!(parse_marker("timestamp=broken").is_none());
}

#[test]
fn read_markers_never_move_backwards_or_reset_to_unknown() {
    let mut state = ReadMarkers::new("");
    assert!(state.receive("Peer", None));
    assert!(state.receive("Peer", Some(1000)));
    assert!(!state.receive("peer", None));
    assert!(!state.receive("PEER", Some(999)));
    assert!(!state.receive("Peer", Some(1000)));
    assert!(state.receive("Peer", Some(1001)));
    assert_eq!(state.confirmed.get("peer"), Some(&Some(1001)));
}

struct World {
    app: App,
    map: StrMap<ReadMarkers>,
    now: u64,
}

fn bare_world() -> World {
    let mut app = App::new(Config {
        nick: "me".to_string(),
        username: "me".to_string(),
        servers: StrMap::new(),
        aliases: StrMap::new(),
        typing: TypingConfig { send_channels: true, send_queries: true },
        shrink_enabled: false,
        shrink_outgoing: false,
        spellcheck_enabled: false,
    });
    let config = ServerConfig {
        label: "Bouncer".to_string(),
        address: "bnc.example.org".to_string(),
        port: 6697,
        tls: true,
        channels: vec![],
        nick: None,
        username: None,
        password: None,
        sasl_user: None,
        sasl_pass: None,
        sasl_mechanism: None,
        client_cert_path: None,
        sasl_key_path: None,
        autosendcmd: None,
        auto_reconnect: None,
        reconnect_delay: None,
        reconnect_max_retries: None,
        bouncer_network_id: Some("42".to_string()),
        bouncer_control: false,
    };
    app.setup_connection("account", &config, 0);
    World { app, map: StrMap::new(), now: 1_000_000 }
}

fn sending_world() -> World {
    let mut w = bare_world();
    let conn = w.app.state.connections.get_mut("account").unwrap();
    conn.status = ConnectionStatus::Connected;
    conn.enabled_caps.insert("draft/read-marker".to_string());
    w.app.irc_handles.insert(
        "account".to_string(),
        IrcHandle { sender: IrcSender::connected(), bouncer_identity: None, bouncer_provider: None, local_ip: None },
    );
    w.query("Peer");
    w
}

impl World {
    fn query(&mut self, name: &str) {
        self.app.state.add_buffer(Buffer::named("account", BufferType::Query, name));
    }

    fn tick(&mut self) {
        tick_read_markers(&mut self.map, &mut self.app.irc_handles, &self.app.state, self.now);
    }

    fn read(&mut self, millis: i64) {
        let seen = Some(vec![Boundary { origin: "account/peer".to_string(), millis }]);
        let _ = self.see(true, &seen);
    }

    fn see(&mut self, kept: bool, seen: &Option<Vec<Boundary>>) -> Option<Vec<usize>> {
        mark_visible_message_read(
            &mut self.map,
            &mut self.app.irc_handles,
            &self.app.state,
            "account/peer",
            kept,
            seen,
            self.now,
        )
    }

    fn receive(&mut self, conn: &str, line: &str) -> MarkerOutcome {
        let mut words = line.split(' ');
        let verb = words.next().unwrap();
        let mut params: Vec<String> = vec![];
        let mut rest: Option<String> = None;
        for word in words {
            match &mut rest {
                Some(r) => {
                    r.push(' ');
                    r.push_str(word);
                }
                None => match word.strip_prefix(':') {
                    Some(t) => rest = Some(t.to_string()),
                    None => params.push(word.to_string()),
                },
            }
        }
        if let Some(r) = rest {
            params.push(r);
        }
        handle_read_marker(&mut self.map, &self.app.state, conn, verb, &params, self.now)
    }

    fn markers(&mut self) -> &mut ReadMarkers {
        self.map.get_mut("account").unwrap()
    }

    fn sent(&self) -> Vec<(String, Vec<String>)> {
        self.app
            .irc_handles
            .get("account")
            .unwrap()
            .sender
            .sent
            .iter()
            .map(|c| (c.verb.clone(), c.params.clone()))
            .collect()
    }
}

fn line(verb: &str, params: &[&str]) -> (String, Vec<String>) {
    (verb.to_string(), params.iter().map(|p| p.to_string()).collect())
}

#[test]
fn unanswered_requests_expire_and_do_not_starve_new_read_positions() {
    let mut w = sending_world();
    for index in 0..140 {
        w.query(&format!("target{index:03}"));
    }
    for _ in 0..20 {
        w.tick();
    }
    assert_eq!(w.markers().pending.len(), 128);
    assert_eq!(w.markers().pending.len(), PENDING_MAX);
    w.read(1123);
    let past = w.now - 46_000;
    for request in &mut w.markers().pending {
        request.sent_at = past;
    }
    for _ in 0..20 {
        w.tick();
    }
    assert!(w.sent().iter().any(|c| c.1 == vec!["Peer", "timestamp=1970-01-01T00:00:01.123Z"]));
    assert!(w.sent().iter().any(|c| c.1 == vec!["target139"]));
    assert!(w.markers().pending.len() < 128);
}

#[test]
fn one_confirmation_retires_all_satisfied_retransmissions() {
    let mut w = sending_world();
    w.read(1123);
    let past = w.now - 6_000;
    w.markers().sent.get_mut("peer").unwrap().at = past;
    w.tick();
    assert_eq!(w.markers().pending.len(), 2);
    w.receive("account", "MARKREAD Peer timestamp=1970-01-01T00:00:01.123Z");
    assert!(w.markers().pending.is_empty());
    w.read(2456);
    assert_eq!(w.sent().len(), 3);
    w.receive("account", "MARKREAD Peer timestamp=1970-01-01T00:00:01.123Z");
    assert_eq!(w.markers().pending.len(), 1);
}

#[test]
fn unscoped_marker_failure_affects_only_the_first_pending_request() {
    let mut w = sending_world();
    w.query("Other");
    w.tick();
    assert_eq!(w.sent().len(), 2);
    let outcome = w.receive("account", "FAIL MARKREAD NEED_MORE_PARAMS :Missing parameters");
    assert!(outcome.handled);
    assert!(w.markers().rejected_queries.contains("other"));
    assert!(!w.markers().rejected_queries.contains("peer"));
    assert_eq!(w.markers().pending[0].target, "peer");
    assert_eq!(w.markers().pending[0].timestamp, None);
    w.receive("account", "MARKREAD Peer *");
    w.read(1123);
    assert_eq!(w.sent().len(), 3);
}

#[test]
fn failed_initial_query_does_not_reject_later_read_updates() {
    let mut w = sending_world();
    w.tick();
    w.receive("account", "FAIL MARKREAD INVALID_TARGET Peer :Not joined");
    w.tick();
    assert_eq!(w.sent().len(), 1);
    w.read(1123);
    assert_eq!(w.sent().len(), 2);
    w.receive("account", "MARKREAD Peer timestamp=1970-01-01T00:00:01.123Z");
    assert_eq!(w.markers().desired.len(), 0);
    assert!(w.markers().pending.is_empty());
}

#[test]
fn permanent_marker_failure_stops_the_rejected_timestamp() {
    for command in ["MARKREAD", "READ"] {
        let mut w = sending_world();
        w.read(1123);
        let failure = format!(
            "FAIL {command} INVALID_PARAMS timestamp=1970-01-01T00:00:01.123Z :Invalid timestamp"
        );
        let outcome = w.receive("account", &failure);
        assert!(outcome.handled);
        let (_, text) = outcome.report.unwrap();
        assert!(text.contains("Read-marker synchronization failed"));
        assert_eq!(w.markers().desired.len(), 0);
        w.read(1123);
        w.tick();
        assert_eq!(w.sent().len(), 1);
        w.read(2456);
        assert_eq!(w.sent().len(), 2);
    }
}

#[test]
fn transient_marker_failure_retries_with_bounded_backoff() {
    let mut w = sending_world();
    w.read(1123);
    for attempt in 1..=3 {
        assert!(w.receive("account", "FAIL MARKREAD INTERNAL_ERROR Peer :Internal error").handled);
        w.tick();
        assert_eq!(w.sent().len(), attempt);
        if attempt < 3 {
            let past = w.now - 30_000;
            *w.markers().retry_after.get_mut("peer").unwrap() = past;
            w.markers().sent.get_mut("peer").unwrap().at = past;
            w.tick();
        }
    }
    w.read(1123);
    w.tick();
    assert_eq!(w.sent().len(), 3);
    assert!(!reconnect_markers(&mut w.map, &w.app.state, "account"));
    w.read(1123);
    assert_eq!(w.sent().len(), 4);
}

#[test]
fn queries_and_updates_use_legacy_read_when_needed() {
    let mut w = sending_world();
    let conn = w.app.state.connections.get_mut("account").unwrap();
    conn.enabled_caps.remove("draft/read-marker");
    conn.enabled_caps.insert("soju.im/read".to_string());
    w.tick();
    assert_eq!(w.sent()[0], line("READ", &["Peer"]));
    w.read(1123);
    assert_eq!(w.sent()[1], line("READ", &["Peer", "timestamp=1970-01-01T00:00:01.123Z"]));
    w.receive("account", "READ Peer timestamp=1970-01-01T00:00:01.123Z");
    assert_eq!(w.markers().desired.len(), 0);
}

#[test]
fn reconnect_retries_unconfirmed_reads_only_for_the_same_network_scope() {
    let mut w = sending_world();
    w.read(1123);
    reconnect_markers(&mut w.map, &w.app.state, "account");
    w.tick();
    assert_eq!(w.sent().len(), 2);
    w.app.state.connections.get_mut("account").unwrap().network_scope =
        Some("different-account-and-network".to_string());
    assert!(reconnect_markers(&mut w.map, &w.app.state, "account"));
    assert_eq!(w.markers().desired.len(), 0);
    w.tick();
    assert_eq!(w.sent()[2], line("MARKREAD", &["Peer"]));
}

#[test]
fn removing_preferred_capability_keeps_legacy_read_synchronization() {
    let mut w = sending_world();
    let conn = w.app.state.connections.get_mut("account").unwrap();
    conn.enabled_caps.insert("soju.im/read".to_string());
    conn.enabled_caps.remove("draft/read-marker");
    w.read(1123);
    assert_eq!(
        w.sent().last(),
        Some(&line("READ", &["Peer", "timestamp=1970-01-01T00:00:01.123Z"]))
    );
}

#[test]
fn markers_require_a_bound_bouncer_and_negotiated_capability() {
    let mut w = bare_world();
    let marker = "READ Peer timestamp=2024-01-01T00:00:00.123Z";
    assert!(w.receive("account", marker).handled);
    assert_eq!(w.map.len(), 0);
    w.app.state.connections.get_mut("account").unwrap().enabled_caps.insert("soju.im/read".to_string());
    assert!(w.receive("account", marker).handled);
    assert_eq!(w.markers().confirmed.get("peer"), Some(&Some(1_704_067_200_123)));
    assert_eq!(confirmed_read_marker(&w.map, "account", "Peer"), Some(1_704_067_200_123));
    assert!(w.receive("other-account", marker).handled);
    assert!(!w.map.contains("other-account"));
    w.map = StrMap::new();
    w.app.state.connections.get_mut("account").unwrap().origin_config.bouncer_network_id = None;
    assert!(w.receive("account", marker).handled);
    assert_eq!(w.map.len(), 0);
}

/// The active conversation, with a message that nobody has seen yet.
fn unseen_message() -> World {
    let mut w = sending_world();
    w.app.state.add_message(
        "account/peer",
        Message {
            id: 7,
            at_ms: 1123,
            message_type: MessageType::Message,
            nick: Some("Peer".to_string()),
            nick_mode: None,
            text: "hi".to_string(),
            highlight: false,
            event_key: None,
            event_params: vec![],
            msgid: None,
        },
    );
    w.app.state.set_active_buffer("account/peer");
    w
}

fn nothing_read(w: &World) -> bool {
    matches!(mark_terminal_read(&w.app, true, true, true), TerminalRead::Nothing)
}

fn peer_read(w: &World) -> bool {
    match mark_terminal_read(&w.app, true, true, true) {
        TerminalRead::Mark(buffer, id) => buffer == "account/peer" && id == 7,
        _ => false,
    }
}

#[test]
fn unfocused_terminal_preserves_unread_until_focus_returns() {
    let mut w = unseen_message();
    w.app.note_focus(FocusEvent::Lost);
    assert!(nothing_read(&w));
    w.app.note_focus(FocusEvent::Gained);
    assert!(matches!(mark_terminal_read(&w.app, false, true, true), TerminalRead::Nothing));
    assert!(peer_read(&w));
    w.app.scroll_offset = 1;
    assert!(nothing_read(&w));
}

#[test]
fn mouse_only_interaction_confirms_focus_but_hover_does_not() {
    let mut w = unseen_message();
    w.app.note_focus(FocusEvent::Mouse(MouseKind::Moved));
    assert!(!w.app.terminal_focused);
    assert!(nothing_read(&w));
    w.app.note_focus(FocusEvent::Mouse(MouseKind::Down(MouseButton::Left)));
    assert!(w.app.terminal_focused);
    assert!(peer_read(&w));
}

#[test]
fn unknown_initial_focus_preserves_unread_until_keyboard_input() {
    let mut w = unseen_message();
    assert!(nothing_read(&w));
    w.app.note_focus(FocusEvent::Released);
    assert!(!w.app.terminal_focused);
    w.app.note_focus(FocusEvent::Pressed);
    assert!(w.app.terminal_focused);
    assert!(peer_read(&w));
}

#[test]
fn background_reattach_waits_for_focus_confirmation() {
    let mut w = unseen_message();
    w.app.note_focus(FocusEvent::Gained);
    w.app.note_focus(FocusEvent::Attached);
    assert!(!w.app.terminal_focused);
    assert!(nothing_read(&w));
    w.app.note_focus(FocusEvent::Gained);
    assert!(peer_read(&w));
}

#[test]
fn another_network_forgets_what_was_wanted() {
    let mut state = ReadMarkers::new("a");
    assert!(state.mark("peer", 5));
    assert!(state.mark("peer", 3));
    assert_eq!(state.desired.get("peer"), Some(&5));
    state.rejected.insert("peer".to_string(), 7);
    assert!(!state.mark("peer", 7));
    assert!(!state.reconnect_read_markers("a"));
    assert_eq!(state.desired.get("peer"), Some(&5));
    assert!(state.reconnect_read_markers("b"));
    assert_eq!(state.desired.get("peer"), None);
}

#[test]
fn a_round_asks_for_no_more_than_its_budget() {
    let mut state = ReadMarkers::new("a");
    let mut names: StrMap<String> = StrMap::new();
    for i in 0..(ROUND_BUDGET + 10) {
        names.insert(format!("peer{i}"), format!("Peer{i}"));
    }
    let targets = state.prioritized_targets(names);
    assert_eq!(targets.len(), ROUND_BUDGET + 10);
    let mut sender = IrcSender::connected();
    let _ = state.send_requests(&mut sender, "MARKREAD", &targets, 0, ROUND_BUDGET);
    assert!(sender.sent.len() <= ROUND_BUDGET);
    assert_eq!(sender.sent[0].verb, "MARKREAD");
}

#[test]
fn what_is_seen_is_told_only_where_markers_are_kept() {
    let mut w = sending_world();
    let seen = || Some(vec![
        Boundary { origin: "nowhere".to_string(), millis: 500 },
        Boundary { origin: "account/Peer".to_string(), millis: 1000 },
    ]);
    assert_eq!(w.see(false, &seen()), None);
    assert_eq!(w.see(true, &None), None);
    assert_eq!(w.see(true, &Some(vec![])), Some(vec![]));
    assert_eq!(w.map.len(), 0);
    assert!(w.app.irc_handles.get("account").unwrap().sender.sent.is_empty());
    assert_eq!(w.see(true, &seen()), Some(vec![1]));
    assert_eq!(w.map.get("account").unwrap().desired.get("peer"), Some(&1000));
    let sent = &w.app.irc_handles.get("account").unwrap().sender.sent;
    assert_eq!(sent.len(), 1);
    assert_eq!(sent[0].verb, "MARKREAD");
}
