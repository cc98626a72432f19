//! Finding the conversations that a bouncer keeps.
use repartee::app::{App, Clock, Config, IrcHandle, TypingConfig};
use repartee::batch::{BatchInfo, IrcMessage, Numbered};
use repartee::collections::StrMap;
use repartee::history_discovery::{
    decode_targets, hydration_sent, queue_connect_history, receive_history_targets,
    send_history_targets, send_queued_hydration, start_history_discovery, tick_history_discovery,
    HistoryDiscovery,
};
use repartee::state::{Buffer, BufferType, ConnectionStatus, ServerConfig};
use repartee::wire::{Command, IrcSender, Tag};

const UTC: i64 = 1_750_000_000_000;
const MONO: u64 = 100_000;

fn clock() -> Clock {
    Clock { mono_ms: MONO, utc_ms: UTC }
}

struct World {
    app: App,
    map: StrMap<HistoryDiscovery>,
    now: Clock,
}

fn world() -> World {
    let mut app = App::new(Config {
        nick: "me".to_string(),
        username: "me".to_string(),
        servers: StrMap::new(),
        aliases: StrMap::new(),
        typing: TypingConfig { send_channels: true, send_queries: true },
        shrink_enabled: false,
        shrink_outgoing: false,
        spellcheck_enabled: false,
    });
    let config = ServerConfig {
        label: "Bouncer".to_string(),
        address: "bnc.example.org".to_string(),
        port: 6697,
        tls: true,
        channels: vec![],
        nick: None,
        username: None,
        password: None,
        sasl_user: None,
        sasl_pass: None,
        sasl_mechanism: None,
        client_cert_path: None,
        sasl_key_path: None,
        autosendcmd: None,
        auto_reconnect: None,
        reconnect_delay: None,
        reconnect_max_retries: None,
        bouncer_network_id: Some("42".to_string()),
        bouncer_control: false,
    };
    app.setup_connection("account", &config, UTC);
    let conn = app.state.connections.get_mut("account").unwrap();
    conn.status = ConnectionStatus::Connected;
    conn.enabled_caps.insert("draft/chathistory".to_string());
    app.irc_handles.insert(
        "account".to_string(),
        IrcHandle { sender: IrcSender::connected(), bouncer_identity: None, bouncer_provider: None, local_ip: None },
    );
    World { app, map: StrMap::new(), now: clock() }
}

impl World {
    fn round(&mut self) {
        let next = tick_history_discovery(
            &mut self.map,
            &mut self.app.state,
            &mut self.app.irc_handles,
            "account",
            self.now,
        );
        for target in next {
            let d = self.map.get_mut("account").unwrap();
            if send_queued_hydration(d, &self.app.state, "account", &target, 50) {
                self.history().sent(&target, MONO);
                hydration_sent(self.map.get_mut("account").unwrap(), &target, true);
            }
        }
    }

    fn start(&mut self) {
        if start_history_discovery(&mut self.map, &self.app.state, "account", self.now) {
            send_history_targets(
                self.map.get_mut("account").unwrap(),
                &mut self.app.state,
                &mut self.app.irc_handles,
                "account",
                self.now,
            );
        }
    }

    fn receive(&mut self, batch: &BatchInfo) {
        let d = self.map.get_mut("account").unwrap();
        if receive_history_targets(d, &mut self.app.state, "account", batch, self.now) {
            self.round();
        }
    }

    fn d(&mut self) -> &mut HistoryDiscovery {
        self.map.get_mut("account").unwrap()
    }

    fn history(&mut self) -> &mut repartee::chathistory::ChatHistory {
        &mut self.app.state.connections.get_mut("account").unwrap().chathistory
    }

    fn sent(&self) -> &Vec<Command> {
        &self.app.irc_handles.get("account").unwrap().sender.sent
    }
}

fn row(name: &str, time: &str) -> IrcMessage {
    IrcMessage {
        source: None,
        command: Command {
            tags: vec![],
            verb: "CHATHISTORY".to_string(),
            params: vec!["TARGETS".to_string(), name.to_string(), time.to_string()],
        },
    }
}

fn batch(rows: &[(&str, &str)]) -> BatchInfo {
    let mut messages = vec![];
    for (i, (name, time)) in rows.iter().enumerate() {
        messages.push(Numbered { order: i as u64, message: row(name, time) });
    }
    BatchInfo {
        kind: "draft/chathistory-targets".to_string(),
        params: vec![],
        opener: vec![],
        messages,
        dropped: 0,
        spoiled: false,
        started_at: MONO,
    }
}

fn end() -> Vec<Tag> {
    vec![Tag { key: "draft/chathistory-end".to_string(), value: None }]
}

#[test]
fn short_and_oversized_target_pages_continue_until_explicit_end() {
    let mut w = world();
    w.start();
    assert!(w.d().upper_ms > UTC + 4_000);
    w.receive(&batch(&[("First", "2024-01-01T00:00:02.000Z")]));
    assert!(!w.d().finished);
    w.d().limit = 1;
    let mut page =
        batch(&[("Second", "2024-01-01T00:00:01.000Z"), ("Third", "2024-01-01T00:00:00.000Z")]);
    page.opener = end();
    w.receive(&page);
    assert!(w.d().finished);
    assert!(w.app.state.buffers.contains("account/third"));
}

#[test]
fn retained_queries_use_the_same_bounded_queue_before_targets_start() {
    let mut w = world();
    for target in ["First", "Second", "Third"] {
        w.app.state.add_buffer(Buffer::named("account", BufferType::Query, target));
        assert!(queue_connect_history(&mut w.map, &w.app.state, "account", target, 50, w.now));
    }
    w.round();
    assert_eq!(w.history().pending_count(), 2);
    assert_eq!(w.d().queue.len(), 1);
    assert!(!w.d().discovery_started);
    w.start();
    assert!(w.d().pending.is_some());
    assert_eq!(w.d().queue.len(), 1);
}

#[test]
fn failed_hydration_retries_without_confusing_timeout_with_empty_history() {
    let mut w = world();
    w.start();
    w.receive(&batch(&[("Peer", "2024-01-01T00:00:00.000Z")]));
    assert_eq!(w.d().hydration_attempts.get("Peer"), Some(&1));
    w.history().clear_stale(MONO + 100_000);
    w.round();
    assert_eq!(w.d().hydration_attempts.get("Peer"), Some(&2));
    assert!(w.history().any_in_flight("Peer"));
    w.history().complete_target("Peer", true);
    w.round();
    assert!(w.d().active.is_empty());
    assert!(w.d().queue.is_empty());
    assert_eq!(w.d().hydration_attempts.get("Peer"), Some(&2));
}

#[test]
fn hydration_queue_keeps_two_requests_in_flight_per_connection() {
    let mut w = world();
    w.start();
    w.receive(&batch(&[
        ("First", "2024-01-01T00:00:00.000Z"),
        ("Second", "2024-01-01T00:00:01.000Z"),
        ("Third", "2024-01-01T00:00:02.000Z"),
    ]));
    assert_eq!(w.history().pending_count(), 2);
    assert_eq!(w.d().queue.len(), 1);
    w.history().complete_target("First", true);
    w.round();
    assert_eq!(w.history().pending_count(), 2);
    assert!(w.history().any_in_flight("Third"));
    assert!(w.d().queue.is_empty());
}

#[test]
fn timed_out_discovery_retries_the_same_window_with_a_bound() {
    let mut w = world();
    w.start();
    for attempt in 1..=3u64 {
        w.d().pending = Some(MONO - 36_000);
        w.d().retry_at = MONO;
        w.round();
        assert_eq!(w.d().attempts, (attempt + 1).min(3));
    }
    assert_eq!(w.sent().len(), 3);
    assert!(w.sent().iter().all(|c| c.verb == w.sent()[0].verb && c.params == w.sent()[0].params));
    assert!(w.d().finished);
}

#[test]
fn full_target_pages_advance_and_deduplicate_overlapping_rows() {
    let mut w = world();
    w.start();
    w.d().limit = 1;
    w.receive(&batch(&[("Peer", "2024-01-01T00:00:00.000Z")]));
    assert_eq!(w.d().upper_ms, 1_704_067_200_001);
    w.receive(&batch(&[("Peer", "2024-01-01T00:00:00.000Z")]));
    assert_eq!(w.d().upper_ms, 1_704_067_200_000);
    assert!(w.d().incomplete);
    assert_eq!(w.d().active.len(), 1);
    w.receive(&batch(&[("Older", "2023-01-01T00:00:00.000Z")]));
    w.receive(&batch(&[("Older", "2023-01-01T00:00:00.000Z")]));
    assert!(w.app.state.buffers.contains("account/older"));
    let mut warned = 0;
    for i in 0..w.app.state.buffers.len() {
        for message in &w.app.state.buffers.value_at(i).messages {
            if message.text.contains("Some conversations may be missing") {
                warned += 1;
            }
        }
    }
    assert_eq!(warned, 1);
    w.receive(&batch(&[]));
    assert!(w.d().finished);
}

#[test]
fn overlapping_pages_below_the_limit_do_not_warn() {
    let mut w = world();
    w.start();
    w.d().limit = 2;
    for _ in 0..2 {
        w.receive(&batch(&[("Peer", "2024-01-01T00:00:00.000Z")]));
    }
    w.receive(&batch(&[]));
    assert!(w.d().finished);
    assert!(!w.d().incomplete);
}

#[test]
fn explicit_end_of_targets_does_not_report_a_limit_gap() {
    let mut w = world();
    w.start();
    w.d().limit = 1;
    w.receive(&batch(&[("Peer", "2024-01-01T00:00:00.000Z")]));
    let mut page = batch(&[("Peer", "2024-01-01T00:00:00.000Z")]);
    page.opener = end();
    w.receive(&page);
    assert!(w.d().finished);
    assert!(!w.d().incomplete);
}

#[test]
fn targets_accept_both_channel_and_query_rows() {
    let page =
        batch(&[("#chat", "2024-01-01T00:00:00.000Z"), ("Peer", "2024-01-01T00:00:01.000Z")]);
    let found: Vec<(String, i64)> = decode_targets(&page, 1_800_000_000_000)
        .unwrap()
        .into_iter()
        .map(|t| (t.name, t.at_ms))
        .collect();
    assert_eq!(
        found,
        vec![
            ("#chat".to_string(), 1_704_067_200_000),
            ("Peer".to_string(), 1_704_067_201_000)
        ]
    );
}

#[test]
fn targets_reject_truncation_and_rows_outside_the_requested_window() {
    let mut page = batch(&[("Peer", "2024-01-01T00:00:00.000Z")]);
    assert!(decode_targets(&page, 1_700_000_000_000).is_none());
    page.dropped = 1;
    assert!(decode_targets(&page, 1_800_000_000_000).is_none());
}

#[test]
fn malformed_targets_do_not_partially_commit_a_page() {
    let page = batch(&[("Peer", "2024-01-01T00:00:00.000Z"), ("Other", "invalid-time")]);
    assert!(decode_targets(&page, 1_800_000_000_000).is_none());
}

#[test]
fn the_question_names_its_window() {
    let mut w = world();
    w.now = Clock { mono_ms: MONO, utc_ms: 1_704_067_200_123 };
    w.start();
    let sent = &w.sent()[0];
    assert_eq!(sent.verb, "CHATHISTORY");
    assert_eq!(sent.params[0], "TARGETS");
    assert!(sent.params.iter().any(|p| p.starts_with("timestamp=2024-01-01T00:00:")));
}

#[test]
fn an_answer_without_its_connection_stops_at_the_first_new_name() {
    let mut w = world();
    w.start();
    let before = w.d().upper_ms;
    let _gone = w.app.state.connections.remove("account");
    let page = batch(&[("First", "2024-01-01T00:00:02.000Z"), ("Second", "2024-01-01T00:00:01.000Z")]);
    let now = w.now;
    let d = w.map.get_mut("account").unwrap();
    assert!(!receive_history_targets(d, &mut w.app.state, "account", &page, now));
    assert!(d.upper_ms < before);
    assert!(d.pending.is_none());
    assert!(d.seen.contains("first"));
    assert!(!d.seen.contains("second"));
    assert!(d.queue.is_empty());
    assert!(!w.app.state.buffers.contains("account/first"));
}
