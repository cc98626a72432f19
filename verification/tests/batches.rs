//! Batches of messages.
use repartee::app::{App, Clock, Config, IrcHandle, TypingConfig};
use repartee::batch::{
    build_multiline_message, BatchInfo, BatchTracker, IrcMessage, MultilineOutcome, Numbered, Source,
    BATCH_MAX, BATCH_MS,
};
use repartee::collections::StrMap;
use repartee::completed::{dispatch_completed_batch, dispatch_expired_batch_set, BatchAction, Expired, Outcome};
use repartee::irc_events::{handle_irc_event, EventStep, IrcEvent, Routed, Sessions};
use repartee::irc_dispatch::{finish_reply, route_reply};
use repartee::labels::{
    finish_labeled_response, labeled_response_buffer, send_active_labeled_request, tick_labels,
    LabelError, Labels, LABEL_MS,
};
use repartee::maintenance::purge_expired_batches;
use repartee::state::{Buffer, BufferType, ConnectionStatus, ServerConfig};
use repartee::wire::{command1, Command, IrcSender, Tag};

/// Reads a line as a server writes it.
fn parse(line: &str) -> IrcMessage {
    let mut rest = line;
    let mut tags = vec![];
    if let Some(r) = rest.strip_prefix('@') {
        let (t, r) = r.split_once(' ').unwrap();
        rest = r;
        for tag in t.split(';') {
            match tag.split_once('=') {
                Some((k, v)) => tags.push(Tag { key: k.to_string(), value: Some(v.to_string()) }),
                None => tags.push(Tag { key: tag.to_string(), value: None }),
            }
        }
    }
    let mut source = None;
    if let Some(r) = rest.strip_prefix(':') {
        let (p, r) = r.split_once(' ').unwrap();
        rest = r;
        if let Some((nick, user)) = p.split_once('!') {
            let (ident, host) = user.split_once('@').unwrap();
            source = Some(Source {
                nick: nick.to_string(),
                ident: ident.to_string(),
                host: host.to_string(),
            });
        }
    }
    let (head, trailing) = match rest.split_once(" :") {
        Some((h, t)) => (h, Some(t)),
        None => (rest, None),
    };
    let mut words = head.split(' ');
    let verb = words.next().unwrap().to_string();
    let mut params: Vec<String> = words.map(|w| w.to_string()).collect();
    if let Some(t) = trailing {
        params.push(t.to_string());
    }
    IrcMessage { source, command: Command { tags, verb, params } }
}

struct World {
    app: App,
    sessions: Sessions,
    now: u64,
}

fn world() -> World {
    let mut app = App::new(Config {
        nick: "me".to_string(),
        username: "me".to_string(),
        servers: StrMap::new(),
        aliases: StrMap::new(),
        typing: TypingConfig { send_channels: true, send_queries: true },
        shrink_enabled: false,
        shrink_outgoing: false,
        spellcheck_enabled: false,
    });
    let config = ServerConfig {
        label: "fixture".to_string(),
        address: "127.0.0.1".to_string(),
        port: 1,
        tls: false,
        channels: vec![],
        nick: Some("me".to_string()),
        username: None,
        password: None,
        sasl_user: None,
        sasl_pass: None,
        sasl_mechanism: None,
        client_cert_path: None,
        sasl_key_path: None,
        autosendcmd: None,
        auto_reconnect: None,
        reconnect_delay: None,
        reconnect_max_retries: None,
        bouncer_network_id: None,
        bouncer_control: false,
    };
    app.setup_connection("fixture", &config, 0);
    app.state.connections.get_mut("fixture").unwrap().status = ConnectionStatus::Connected;
    app.irc_handles.insert(
        "fixture".to_string(),
        IrcHandle { sender: IrcSender::connected(), bouncer_identity: None, bouncer_provider: None, local_ip: None },
    );
    World { app, sessions: Sessions::new(), now: 1_000 }
}

impl World {
    fn receive(&mut self, line: &str) -> Routed {
        let event = IrcEvent::Message("fixture".to_string(), parse(line));
        let now = Clock { mono_ms: self.now, utc_ms: 1_700_000_000_000 };
        match handle_irc_event(&mut self.app, &mut self.sessions, event, "fixture", None, "#&", now) {
            EventStep::Received(_, routed) => routed,
            other => panic!("unexpected {other:?}"),
        }
    }

    fn tracker(&mut self) -> &mut BatchTracker {
        self.sessions.trackers.get_mut("fixture").unwrap()
    }

    fn purge(&mut self, after: u64) -> Vec<Outcome> {
        let now = Clock { mono_ms: self.now + after, utc_ms: 1_700_000_000_000 };
        purge_expired_batches(
            &mut self.sessions.trackers,
            &mut self.sessions.searches,
            &mut self.app.state,
            now,
        )
    }

    fn expire(&mut self, references: &[&str]) -> Vec<BatchAction> {
        let mut batches = vec![];
        for reference in references {
            let batch = self.tracker().end_batch(reference).unwrap();
            batches.push(Expired {
                conn: "fixture".to_string(),
                reference: reference.to_string(),
                batch,
            });
        }
        let now = Clock { mono_ms: self.now, utc_ms: 1_700_000_000_000 };
        dispatch_expired_batch_set(
            &mut self.sessions.trackers,
            &mut self.sessions.searches,
            &mut self.app.state,
            batches,
            now,
        )
        .into_iter()
        .map(|o| o.action)
        .collect()
    }
}

fn verbs(action: &BatchAction) -> Vec<String> {
    match action {
        BatchAction::Live(messages) => messages.iter().map(|m| m.command.verb.clone()).collect(),
        other => panic!("unexpected {other:?}"),
    }
}

fn closed(routed: Routed) -> BatchAction {
    match routed {
        Routed::Closed { action: Some(action), .. } => action,
        other => panic!("unexpected {other:?}"),
    }
}

#[test]
fn expired_nested_history_folds_children_before_parents_in_any_order() {
    for order in [
        ["history", "outer", "inner"],
        ["inner", "history", "outer"],
        ["outer", "inner", "history"],
    ] {
        let mut w = world();
        w.receive(":server BATCH +history chathistory #old");
        w.receive("@batch=history :server BATCH +outer vendor/outer");
        w.receive("@batch=outer :server BATCH +inner vendor/inner");
        w.receive("@batch=inner :me!u@h JOIN #old");
        let actions = w.expire(&order);
        assert!(actions.iter().all(|a| !matches!(a, BatchAction::Live(_))));
        let mut rows = 0;
        for action in &actions {
            if let BatchAction::History(b) = action {
                rows += b.messages.len();
            }
        }
        assert_eq!(rows, 1);
    }
}

#[test]
fn live_nested_batch_waits_for_parent_but_orphan_is_not_replayed() {
    let mut w = world();
    w.receive(":server BATCH +parent vendor/parent");
    w.receive("@batch=parent :server BATCH +child vendor/child");
    assert!(matches!(w.receive("@batch=child :me!u@h JOIN #test"), Routed::Collected));
    match w.receive(":server BATCH -child") {
        Routed::Closed { action, .. } => assert!(action.is_none()),
        other => panic!("unexpected {other:?}"),
    }
    let action = closed(w.receive(":server BATCH -parent"));
    assert_eq!(verbs(&action), vec!["JOIN"]);
    w.receive("@batch=gone :server BATCH +orphan vendor/child");
    w.receive("@batch=orphan :me!u@h JOIN #orphan");
    match w.receive(":server BATCH -orphan") {
        Routed::Closed { action, .. } => assert!(action.is_none()),
        other => panic!("unexpected {other:?}"),
    }
}

#[test]
fn nested_fold_keeps_the_message_limit_and_dropped_count() {
    let mut w = world();
    w.receive(":server BATCH +parent chathistory #old");
    let mut items = vec![];
    for _ in 0..5000 {
        items.push(Numbered { order: 0, message: parse(":me!u@h JOIN #old") });
    }
    assert!(w.tracker().fold_messages("parent", items, 3));
    let batch = w.tracker().end_batch("parent").unwrap();
    assert_eq!(batch.messages.len(), 4096);
    assert_eq!(batch.messages.len(), BATCH_MAX);
    assert_eq!(batch.dropped, 907);
}

#[test]
fn nested_payloads_keep_wire_order_on_close_and_expiration() {
    for expired in [false, true] {
        let mut w = world();
        w.receive(":me!u@h JOIN #test");
        w.receive(":server BATCH +parent vendor/parent");
        w.receive("@batch=parent :Alice!u@h JOIN #test");
        w.receive("@batch=parent :server BATCH +child vendor/child");
        w.receive("@batch=child :Alice!u@h NICK Bob");
        w.receive("@batch=parent :Bob!u@h PART #test :gone");
        let action = if expired {
            let mut actions = w.expire(&["parent", "child"]);
            actions.retain(|a| matches!(a, BatchAction::Live(_)));
            assert_eq!(actions.len(), 1);
            actions.remove(0)
        } else {
            w.receive("@batch=parent :server BATCH -child");
            closed(w.receive(":server BATCH -parent"))
        };
        assert_eq!(verbs(&action), vec!["JOIN", "NICK", "PART"]);
    }
}

#[test]
fn search_batches_never_enter_live_history_or_activity() {
    for expired in [false, true] {
        let mut w = world();
        w.receive(":server BATCH +search soju.im/search");
        w.receive("@batch=search :server BATCH +inner vendor/wrapper");
        w.receive("@batch=inner;msgid=x :Alice!u@h PRIVMSG #test :me search result");
        w.receive("@batch=search :me!u@h JOIN #unexpected");
        let actions = if expired {
            w.expire(&["search", "inner"])
        } else {
            w.receive(":server BATCH -inner");
            vec![closed(w.receive(":server BATCH -search"))]
        };
        assert!(actions.iter().any(|a| matches!(a, BatchAction::Searched(_))));
        assert!(actions.iter().all(|a| !matches!(a, BatchAction::Live(_) | BatchAction::History(_))));
    }
}

#[test]
fn a_message_of_an_unknown_batch_is_ignored() {
    let mut w = world();
    assert!(matches!(w.receive("@batch=gone :me!u@h JOIN #test"), Routed::Ignored));
    assert!(matches!(w.receive(":server BATCH -gone"), Routed::Ignored));
    assert!(matches!(w.receive(":me!u@h JOIN #test"), Routed::Live(_)));
}

#[test]
fn the_label_of_a_batch_goes_to_its_messages() {
    let mut w = world();
    w.receive("@label=L1 :server BATCH +r labeled-response");
    w.receive("@batch=r :server 311 me bob");
    match w.receive(":server BATCH -r") {
        Routed::Closed { action: Some(BatchAction::Live(messages)), label } => {
            assert_eq!(label, Some("L1".to_string()));
            let tags = &messages[0].command.tags;
            assert!(tags.iter().any(|t| t.key == "label" && t.value == Some("L1".to_string())));
        }
        other => panic!("unexpected {other:?}"),
    }
}

#[test]
fn overdue_batches_are_taken_away() {
    let mut w = world();
    w.receive(":server BATCH +old vendor/x");
    w.receive("@batch=old :me!u@h JOIN #test");
    assert!(w.purge(BATCH_MS - 1).is_empty());
    let outcomes = w.purge(BATCH_MS + 1);
    assert_eq!(outcomes.len(), 1);
    assert_eq!(verbs(&outcomes[0].action), vec!["JOIN"]);
    assert!(w.tracker().end_batch("old").is_none());
}

fn fragment(text: &str, concat: bool) -> Numbered {
    let tags = if concat { "@draft/multiline-concat=;batch=m " } else { "@batch=m " };
    Numbered { order: 0, message: parse(&format!("{tags}:bob!u@h PRIVMSG #test :{text}")) }
}

#[test]
fn multiline_messages_are_put_together() {
    let batch = BatchInfo {
        kind: "draft/multiline".to_string(),
        params: vec!["#test".to_string()],
        opener: vec![],
        messages: vec![fragment("one", false), fragment("two", false), fragment("three", true)],
        dropped: 0,
        spoiled: false,
        started_at: 0,
    };
    match build_multiline_message(&batch) {
        MultilineOutcome::Message(m) => assert_eq!(m.command.params[1], "one\ntwothree"),
        other => panic!("unexpected {other:?}"),
    }
    let mut w = world();
    let now = Clock { mono_ms: w.now, utc_ms: 1_700_000_000_000 };
    let action = dispatch_completed_batch(
        &mut w.sessions.searches,
        &mut w.app.state,
        "fixture",
        batch,
        true,
        "#&",
        now,
    );
    match action {
        BatchAction::Live(messages) => assert_eq!(messages.len(), 1),
        other => panic!("unexpected {other:?}"),
    }
}

// Labels.

#[test]
fn a_labeled_answer_finds_its_buffer() {
    let mut w = world();
    w.app.state.connections.get_mut("fixture").unwrap().enabled_caps.insert("labeled-response".to_string());
    w.app.state.connections.get_mut("fixture").unwrap().enabled_caps.insert("batch".to_string());
    w.app.state.connections.get_mut("fixture").unwrap().enabled_caps.insert("message-tags".to_string());
    w.app.state.add_buffer(Buffer::named("fixture", BufferType::Channel, "#test"));
    w.app.state.set_active_buffer("fixture/#test");
    let mut labels: StrMap<Labels> = StrMap::new();
    send_active_labeled_request(
        &mut labels,
        &w.app.state,
        &mut w.app.irc_handles,
        command1("WHOIS", "bob"),
        1_000,
    )
    .unwrap();
    let sent = &w.app.irc_handles.get("fixture").unwrap().sender.sent[0];
    let label = sent.tags.iter().find(|t| t.key == "label").unwrap().value.clone().unwrap();
    assert_eq!(
        labeled_response_buffer(&mut labels, &w.app.state, "fixture", Some(&label), 1_001),
        Some("fixture/#test".to_string())
    );
    tick_labels(&mut labels, &w.app.state, 1_000 + LABEL_MS + 1);
    let late = labeled_response_buffer(
        &mut labels,
        &w.app.state,
        "fixture",
        Some(&label),
        1_000 + LABEL_MS + 1,
    );
    assert_ne!(late, Some("fixture/#test".to_string()));
}

#[test]
fn a_request_needs_a_buffer_and_a_connection() {
    let mut w = world();
    let mut labels: StrMap<Labels> = StrMap::new();
    w.app.state.active_buffer_id = None;
    let refused = send_active_labeled_request(
        &mut labels,
        &w.app.state,
        &mut w.app.irc_handles,
        command1("WHOIS", "bob"),
        0,
    );
    assert_eq!(refused, Err(LabelError::NoBuffer));
    w.app.state.set_active_buffer("fixture/fixture");
    let mut none: StrMap<IrcHandle> = StrMap::new();
    let refused =
        send_active_labeled_request(&mut labels, &w.app.state, &mut none, command1("WHOIS", "bob"), 0);
    assert_eq!(refused, Err(LabelError::NotConnected));
    w.app.irc_handles.get_mut("fixture").unwrap().sender = IrcSender::failing_after(0);
    let refused = send_active_labeled_request(
        &mut labels,
        &w.app.state,
        &mut w.app.irc_handles,
        command1("WHOIS", "bob"),
        0,
    );
    assert_eq!(refused, Err(LabelError::SendFailed));
}

fn labelled_world() -> (World, StrMap<Labels>, String) {
    let mut w = world();
    for cap in ["labeled-response", "batch"] {
        w.app
            .state
            .connections
            .get_mut("fixture")
            .unwrap()
            .enabled_caps
            .insert(cap.to_string());
    }
    w.app.state.add_buffer(Buffer::named("fixture", BufferType::Channel, "#origin"));
    w.app.state.set_active_buffer("fixture/#origin");
    let mut labels: StrMap<Labels> = StrMap::new();
    send_active_labeled_request(
        &mut labels,
        &w.app.state,
        &mut w.app.irc_handles,
        command1("WHOIS", "Alice"),
        1_000,
    )
    .unwrap();
    let sent = w.app.irc_handles.get("fixture").unwrap().sender.sent.last().unwrap();
    let label = sent.tags.iter().find(|t| t.key == "label").unwrap().value.clone().unwrap();
    (w, labels, label)
}

#[test]
fn nested_whois_returns_to_origin_without_changing_active_buffer_or_logging() {
    let (mut w, mut labels, label) = labelled_world();
    w.app.state.set_active_buffer("fixture/fixture");
    w.receive(&format!("@label={label} :server BATCH +outer labeled-response"));
    w.receive("@batch=outer :server BATCH +inner vendor/wrapper");
    w.receive("@batch=inner :server 311 me Alice user host * :Alice Real Name");
    match w.receive("@batch=outer :server BATCH -inner") {
        Routed::Closed { action, label } => {
            assert!(action.is_none());
            assert_eq!(label, None);
        }
        other => panic!("unexpected {other:?}"),
    }
    w.receive("@batch=outer :server 318 me Alice :End");
    match w.receive(":server BATCH -outer") {
        Routed::Closed { action: Some(BatchAction::Live(messages)), label: finished } => {
            assert_eq!(finished, Some(label.clone()));
            assert_eq!(messages.len(), 2);
            for m in &messages {
                let route = route_reply(&mut labels, &w.app.state, "fixture", m, 1_001);
                assert_eq!(route.reply_buffer, Some("fixture/#origin".to_string()));
            }
            finish_labeled_response(&mut labels, "fixture", &label);
        }
        other => panic!("unexpected {other:?}"),
    }
    assert_eq!(labels.get("fixture").unwrap().entries.len(), 0);
    assert_eq!(w.app.state.active_buffer_id, Some("fixture/fixture".to_string()));
}

#[test]
fn ack_finishes_request_without_displaying_a_message() {
    let (mut w, mut labels, label) = labelled_world();
    let count = w.app.state.buffers.get("fixture/#origin").unwrap().messages.len();
    match w.receive(&format!("@label={label} :server ACK")) {
        Routed::Live(m) => {
            let route = route_reply(&mut labels, &w.app.state, "fixture", &m, 1_001);
            assert!(route.acknowledgement);
            finish_reply(&mut labels, "fixture", &m);
        }
        other => panic!("unexpected {other:?}"),
    }
    assert_eq!(labels.get("fixture").unwrap().entries.len(), 0);
    assert_eq!(w.app.state.buffers.get("fixture/#origin").unwrap().messages.len(), count);
}

#[test]
fn expired_closed_and_foreign_contexts_fall_back_to_the_origin_server() {
    for mode in ["expired", "closed", "foreign"] {
        let (mut w, mut labels, label) = labelled_world();
        let mut id = "fixture";
        if mode == "expired" {
            labels.get_mut("fixture").unwrap().expire(1_000 + 120_000);
        } else if mode == "closed" {
            w.app.state.buffers.remove("fixture/#origin");
        } else {
            let config = w.app.state.connections.get("fixture").unwrap().origin_config.copy();
            w.app.setup_connection("second", &config, 0);
            id = "second";
        }
        let label_server = w.app.state.connections.get(id).unwrap().label.clone();
        let reply = parse(&format!("@label={label} :server 401 me Alice :No such nick"));
        let route = route_reply(&mut labels, &w.app.state, id, &reply, 1_001);
        assert_eq!(route.reply_buffer, Some(format!("{id}/{label_server}")), "{mode}");
    }
}

#[test]
fn capability_loss_disconnect_and_failed_send_clear_pending_context() {
    let (mut w, mut labels, _) = labelled_world();
    w.app.state.connections.get_mut("fixture").unwrap().enabled_caps.remove("labeled-response");
    tick_labels(&mut labels, &w.app.state, 1_001);
    assert!(!labels.contains("fixture"));
    send_active_labeled_request(
        &mut labels,
        &w.app.state,
        &mut w.app.irc_handles,
        command1("WHOIS", "Bob"),
        1_002,
    )
    .unwrap();
    assert!(w.app.irc_handles.get("fixture").unwrap().sender.sent.last().unwrap().tags.is_empty());
    let (mut w, labels, _) = labelled_world();
    w.sessions.labels = labels;
    let event = IrcEvent::Disconnected("fixture".to_string(), None);
    let now = Clock { mono_ms: 1_003, utc_ms: 0 };
    handle_irc_event(&mut w.app, &mut w.sessions, event, "fixture", None, "#&", now);
    assert!(!w.sessions.labels.contains("fixture"));
    let (mut w, _, _) = labelled_world();
    let mut labels: StrMap<Labels> = StrMap::new();
    w.app.irc_handles.get_mut("fixture").unwrap().sender = IrcSender::failing_after(0);
    assert!(send_active_labeled_request(
        &mut labels,
        &w.app.state,
        &mut w.app.irc_handles,
        command1("WHOIS", "Alice"),
        1_000,
    )
    .is_err());
    assert_eq!(labels.get("fixture").unwrap().entries.len(), 0);
}

/// What of a conversation is applied as what the server supports.
fn supported(w: &mut World, line: &str) -> Option<usize> {
    match w.receive(line) {
        Routed::Closed { action: Some(BatchAction::Isupport(batch)), .. } => Some(batch.messages.len()),
        Routed::Closed { action: Some(BatchAction::Live(messages)), .. } => {
            assert!(messages.iter().all(|m| m.command.verb != "005"));
            None
        }
        Routed::Live(m) => {
            assert!(m.command.verb != "005");
            None
        }
        _ => None,
    }
}

#[test]
fn isupport_burst_is_atomic_incremental_and_isolated() {
    let mut w = world();
    assert!(matches!(
        w.receive(":s 005 me CHANTYPES=#& WHOX NICKLEN=20 :supported tokens"),
        Routed::Live(_)
    ));
    w.receive(":s BATCH +a draft/isupport");
    assert!(matches!(
        w.receive("@batch=a :s 005 me -WHOX NICKLEN=30 :supported tokens"),
        Routed::Collected
    ));
    w.receive("@batch=a :s 005 me STATUSMSG=@+ MODES=5");
    assert_eq!(supported(&mut w, ":s BATCH -a"), Some(2));
}

#[test]
fn isupport_empty_malformed_nested_and_orphan_bursts_do_not_mutate() {
    for lines in [
        vec![":s BATCH +a draft/isupport", "@batch=a :s 005 me NICKLEN=30 -WHOX=value :supported tokens", ":s BATCH -a"],
        vec![":s BATCH +a draft/isupport", "@batch=a :s 005 me NICKLEN=30 :supported tokens", "@batch=a :s BATCH -unknown", ":s BATCH -a"],
        vec![":s BATCH +a draft/isupport", ":s BATCH -a"],
        vec![":s BATCH +a draft/isupport", "@batch=a :s 005 me NICKLEN=30 :supported tokens", "@batch=a :s NOTICE me :invalid", ":s BATCH -a"],
        vec![":s BATCH +a draft/isupport", "@batch=a :s 005 me NICKLEN=30 =bad :supported tokens", ":s BATCH -a"],
        vec![":s BATCH +a draft/isupport", "@batch=a :s BATCH +b draft/isupport", "@batch=b :s 005 me NICKLEN=30 :supported tokens", ":s BATCH -b", ":s BATCH -a"],
        vec!["@batch=missing :s BATCH +a draft/isupport", "@batch=a :s 005 me NICKLEN=30 :supported tokens", ":s BATCH -a"],
        vec![":s BATCH +a draft/isupport", "@batch=a :s BATCH +b vendor/unknown", "@batch=b :s 005 me NICKLEN=30 :supported tokens", ":s BATCH -b", ":s BATCH -a"],
    ] {
        let mut w = world();
        for line in lines {
            assert_eq!(supported(&mut w, line), None, "{line}");
        }
    }
}

#[test]
fn isupport_expired_and_overflow_bursts_do_not_apply_partial_updates() {
    for expired in [false, true] {
        let mut w = world();
        w.receive(":s BATCH +a draft/isupport");
        w.receive("@batch=a :s 005 me NICKLEN=30 :supported tokens");
        if expired {
            let actions = w.expire(&["a"]);
            assert!(actions.iter().all(|a| matches!(a, BatchAction::Dropped)));
            assert_eq!(actions.len(), 1);
        } else {
            for _ in 0..4096 {
                w.receive("@batch=a :s 005 me MODES=5 :supported tokens");
            }
            assert_eq!(supported(&mut w, ":s BATCH -a"), None);
        }
    }
}

#[test]
fn isupport_in_a_labeled_answer_counts_once_it_is_whole() {
    let mut w = world();
    w.receive(":s BATCH +outer labeled-response");
    w.receive("@batch=outer :s BATCH +a draft/isupport");
    w.receive("@batch=a :s 005 * NICKLEN=30 :supported tokens");
    assert_eq!(supported(&mut w, ":s BATCH -a"), Some(1));
    assert_eq!(supported(&mut w, ":s BATCH -outer"), None);
}

#[test]
fn collected_messages_are_numbered_on() {
    let mut w = world();
    w.receive(":s BATCH +a vendor/outer");
    w.receive("@batch=a :one!u@h JOIN #x");
    assert_eq!(w.tracker().next_order, 1);
    w.receive("@batch=a :s BATCH +b vendor/inner");
    w.receive("@batch=b :one!u@h NICK two");
    w.receive(":s BATCH -b");
    w.receive("@batch=a :two!u@h PART #x");
    assert_eq!(w.tracker().next_order, 3);
    match w.receive(":s BATCH -a") {
        Routed::Closed { action: Some(action), .. } => {
            assert_eq!(verbs(&action), ["JOIN", "NICK", "PART"]);
        }
        other => panic!("unexpected {other:?}"),
    }
}
