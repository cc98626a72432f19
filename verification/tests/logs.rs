//! The log browser, the mentions and the upkeep of what is kept.
use repartee::app::{App, Clock, Config, IrcHandle, TypingConfig};
use repartee::collections::StrMap;
use repartee::log_browser::{
    older_rows_of,
    split_log_buffer_id, LogStats, NetworkLog, StoredMessage, PAGE_ROWS,
};
use repartee::maintenance::{
    check_day_changed, handle_netsplit_tick, maybe_purge_old_events, maybe_purge_old_mentions,
    measure_lag, purge_stale_chathistory_requests, Ping, SplitMessage, MENTION_SECS, PING_MS, PING_TIMEOUT_MS,
    PURGE_MS,
};
use repartee::mentions::{
    create_mentions_buffer, load_mentions_history, mention_label, mention_row_to_message,
    mention_uses_server_history, merge_mentions, MentionRow, MENTIONS_BUFFER_ID, MENTIONS_MAX,
};
use repartee::state::{
    Buffer, BufferType, ConnectionStatus, Message, MessageType, ServerConfig,
};
use repartee::wire::IrcSender;

fn app() -> App {
    App::new(Config {
        nick: "me".to_string(),
        username: "me".to_string(),
        servers: StrMap::new(),
        aliases: StrMap::new(),
        typing: TypingConfig { send_channels: true, send_queries: true },
        shrink_enabled: false,
        shrink_outgoing: false,
        spellcheck_enabled: false,
    })
}

fn server(label: &str) -> ServerConfig {
    ServerConfig {
        label: label.to_string(),
        address: "irc.test.net".to_string(),
        port: 6697,
        tls: true,
        channels: vec![],
        nick: None,
        username: None,
        password: None,
        sasl_user: None,
        sasl_pass: None,
        sasl_mechanism: None,
        client_cert_path: None,
        sasl_key_path: None,
        autosendcmd: None,
        auto_reconnect: None,
        reconnect_delay: None,
        reconnect_max_retries: None,
        bouncer_network_id: None,
        bouncer_control: false,
    }
}

const NOW: i64 = 1_700_000_000_000;

fn clock() -> Clock {
    Clock { mono_ms: 10_000_000, utc_ms: NOW }
}

fn stored(timestamp: i64, text: &str) -> StoredMessage {
    StoredMessage {
        timestamp,
        msg_type: "message".to_string(),
        nick: Some("bob".to_string()),
        text: text.to_string(),
        highlight: false,
        event_key: None,
    }
}

fn catalog() -> (App, String) {
    let mut app = app();
    app.log_browser_mode = true;
    let networks = vec![
        NetworkLog { name: "libera".to_string(), buffers: vec!["#rust".to_string(), "bob".to_string()] },
        NetworkLog { name: "oftc".to_string(), buffers: vec![] },
    ];
    app.build_log_catalog(&networks);
    let mut id = String::new();
    for i in 0..app.state.buffers.len() {
        let b = app.state.buffers.value_at(i);
        if b.name == "#rust" {
            id = b.id.clone();
        }
    }
    assert!(!id.is_empty());
    (app, id)
}

#[test]
fn the_catalog_lists_what_was_logged() {
    let (app, id) = catalog();
    assert_eq!(
        split_log_buffer_id(&app.state, &id),
        Some(("libera".to_string(), "#rust".to_string()))
    );
    assert_eq!(split_log_buffer_id(&app.state, "nowhere"), None);
}

#[test]
fn older_rows_are_put_above() {
    let (mut app, id) = catalog();
    let stats = LogStats { lines: 3, oldest: 100, newest: 300 };
    app.load_initial_messages(&id, Some(stats), &Some(vec![stored(200, "b"), stored(300, "c")]), NOW);
    let b = app.state.buffers.get(&id).unwrap();
    assert!(b.history_exhausted);
    assert_eq!(b.log_total_lines, Some(3));
    let before: Vec<String> = b.messages.iter().map(|m| m.text.clone()).collect();
    assert_eq!(before, vec!["b", "c"]);
    app.load_older_messages(&id, Some(stats), &Some(vec![stored(100, "a")]), NOW);
    assert_eq!(app.state.buffers.get(&id).unwrap().messages.len(), 2);
    assert!(older_rows_of(&app.state, &id).is_none());
    app.state.buffers.get_mut(&id).unwrap().history_exhausted = false;
    let asked = older_rows_of(&app.state, &id).unwrap();
    assert_eq!((asked.before, asked.limit), (200, PAGE_ROWS));
    app.load_older_messages(&id, Some(stats), &Some(vec![stored(100, "a")]), NOW);
    let b = app.state.buffers.get(&id).unwrap();
    let texts: Vec<String> = b.messages.iter().map(|m| m.text.clone()).collect();
    assert_eq!(texts, vec!["a", "b", "c"]);
    assert_eq!(b.messages[0].at_ms, 100_000);
    assert!(b.messages.len() < PAGE_ROWS);
}

// Mentions.

fn row(id: i64, timestamp: i64, text: &str) -> MentionRow {
    MentionRow {
        id,
        timestamp,
        network: "libera".to_string(),
        buffer: "#rust".to_string(),
        channel: "#rust".to_string(),
        nick: "bob".to_string(),
        text: text.to_string(),
        line: format!("libera #rust bob {text}"),
        shown: true,
    }
}

#[test]
fn mentions_are_put_in_order() {
    let merged = merge_mentions(
        vec![row(1, 100, "a"), row(2, 300, "c")],
        vec![row(-1, 200, "b"), row(-2, 50, "too old")],
        60,
    );
    let texts: Vec<String> = merged.iter().map(|r| r.text.clone()).collect();
    assert_eq!(texts, vec!["a", "b", "c"]);
}

#[test]
fn mentions_are_bounded() {
    let mut rows = vec![];
    for i in 0..(MENTIONS_MAX as i64 + 5) {
        rows.push(row(i, i, "x"));
    }
    let merged = merge_mentions(rows, vec![], 0);
    assert_eq!(merged.len(), MENTIONS_MAX);
    assert_eq!(merged.last().unwrap().id, MENTIONS_MAX as i64 + 4);
}

#[test]
fn the_mentions_buffer_is_made_once() {
    let mut app = app();
    assert!(create_mentions_buffer(&mut app.state));
    assert!(!create_mentions_buffer(&mut app.state));
    let at = NOW / 1000;
    let mut kept = row(4, at - 60, "the bouncer has it");
    kept.network = "bouncer:v1:acc:42".to_string();
    let mut hidden = row(3, at - 40, "hidden");
    hidden.shown = false;
    load_mentions_history(
        &mut app.state,
        vec![row(1, at - 50, "hey me"), row(2, at - MENTION_SECS - 1, "long ago"), kept],
        vec![row(-1, at - 70, "earlier"), hidden, row(-2, at - MENTION_SECS - 1, "long ago")],
        clock(),
    );
    let b = app.state.buffers.get(MENTIONS_BUFFER_ID).unwrap();
    let shown: Vec<&str> = b.messages.iter().map(|m| m.text.as_str()).collect();
    assert_eq!(shown, vec!["libera #rust bob earlier", "libera #rust bob hey me"]);
    assert_eq!(b.messages[1].at_ms, (at - 50) * 1000);
    assert_eq!(b.messages[0].message_type, MessageType::MentionLog);
}

#[test]
fn a_mention_keeps_its_time_where_there_is_one() {
    let m = mention_row_to_message(&row(1, 100, "x"), 5, "x".to_string(), NOW);
    assert_eq!(m.at_ms, 100_000);
    let m = mention_row_to_message(&row(1, i64::MAX, "x"), 5, "x".to_string(), NOW);
    assert_eq!(m.at_ms, NOW);
}

#[test]
fn a_mention_is_labelled_by_its_network() {
    let mut app = app();
    app.config.servers.insert("libera".to_string(), server("Libera.Chat"));
    app.setup_connection("libera", &server("Libera.Chat"), NOW);
    assert_eq!(mention_label(&app.config, &app.state, "Libera.Chat"), "Libera.Chat");
    assert_eq!(mention_label(&app.config, &app.state, "gone"), "gone");
    assert!(!mention_uses_server_history("libera", "#rust"));
}

// Upkeep.

#[test]
fn splits_are_reported_where_they_show() {
    let mut app = app();
    app.state.add_buffer(Buffer::named("net", BufferType::Channel, "#a"));
    app.state.add_buffer(Buffer::named("net", BufferType::Channel, "#b"));
    let split = SplitMessage {
        text: "Netsplit a.net <-> b.net".to_string(),
        buffer_ids: vec!["net/#a".to_string(), "net/#gone".to_string()],
    };
    handle_netsplit_tick(&mut app.state, &vec![split], NOW);
    assert_eq!(app.state.buffers.get("net/#a").unwrap().messages.len(), 1);
    assert_eq!(app.state.buffers.get("net/#b").unwrap().messages.len(), 0);
}

#[test]
fn a_new_day_is_announced_once() {
    let mut app = app();
    app.state.add_buffer(Buffer::named("net", BufferType::Channel, "#a"));
    let mut day: i64 = 5;
    assert!(!check_day_changed(&mut app.state, &mut day, 5, "same", NOW));
    assert!(check_day_changed(&mut app.state, &mut day, 6, "Day changed", NOW));
    assert!(!check_day_changed(&mut app.state, &mut day, 6, "again", NOW));
    assert_eq!(app.state.buffers.get("net/#a").unwrap().messages.len(), 1);
}

#[test]
fn events_are_purged_once_an_hour() {
    let mut last: u64 = 0;
    assert!(!maybe_purge_old_events(&mut last, 0, PURGE_MS + 1));
    assert!(maybe_purge_old_events(&mut last, 24, PURGE_MS + 1));
    assert!(!maybe_purge_old_events(&mut last, 24, PURGE_MS + 2));
}

#[test]
fn volatile_mentions_follow_the_seven_day_retention_policy() {
    let mut app = app();
    create_mentions_buffer(&mut app.state);
    let week = MENTION_SECS * 1000;
    for (id, at_ms) in [(1, NOW - week - 60_000), (2, NOW - week + 60_000), (3, NOW)] {
        app.state.buffers.get_mut(MENTIONS_BUFFER_ID).unwrap().messages.push(Message {
            id,
            at_ms,
            message_type: MessageType::MentionLog,
            nick: None,
            nick_mode: None,
            text: format!("{id}"),
            highlight: false,
            event_key: None,
            event_params: vec![],
            msgid: None,
        });
    }
    let day = 24 * 3600;
    let mut volatile = vec![row(1, NOW / 1000 - 8 * day, "mention"), row(2, NOW / 1000 - day, "mention")];
    let mut last: u64 = 0;
    let cutoff = maybe_purge_old_mentions(&mut app.state, &mut volatile, &mut last, clock());
    assert_eq!(cutoff, Some(NOW / 1000 - MENTION_SECS));
    let left: Vec<u64> =
        app.state.buffers.get(MENTIONS_BUFFER_ID).unwrap().messages.iter().map(|m| m.id).collect();
    assert_eq!(left, vec![2, 3]);
    assert_eq!(volatile.len(), 1);
    assert_eq!(volatile[0].timestamp, NOW / 1000 - day);
    assert_eq!(maybe_purge_old_mentions(&mut app.state, &mut volatile, &mut last, clock()), None);
}

#[test]
fn history_requests_do_not_block_for_ever() {
    let mut app = app();
    app.setup_connection("net", &server("net"), NOW);
    app.state.connections.get_mut("net").unwrap().chathistory.sent("#a", 0);
    purge_stale_chathistory_requests(&mut app.state, 1_000);
    assert_eq!(app.state.connections.get("net").unwrap().chathistory.pending_count(), 1);
    purge_stale_chathistory_requests(&mut app.state, 1_000_000);
    assert_eq!(app.state.connections.get("net").unwrap().chathistory.pending_count(), 0);
}

#[test]
fn silent_connections_are_given_up() {
    let mut app = app();
    app.setup_connection("net", &server("net"), NOW);
    app.state.connections.get_mut("net").unwrap().status = ConnectionStatus::Connected;
    app.irc_handles.insert(
        "net".to_string(),
        IrcHandle { sender: IrcSender::connected(), bouncer_identity: None, bouncer_provider: None, local_ip: None },
    );
    let mut pings: StrMap<Ping> = StrMap::new();
    let mut now = clock();
    measure_lag(&mut app.state, &mut app.irc_handles, &mut pings, now);
    let since = now.mono_ms;
    assert_eq!(pings.get("net"), Some(&Ping { sent: since, waiting_since: since }));
    assert!(app.state.connections.get("net").unwrap().lag_pending);
    assert_eq!(app.irc_handles.get("net").unwrap().sender.sent[0].verb, "PING");
    while now.mono_ms + PING_MS < since + PING_TIMEOUT_MS {
        now.mono_ms += PING_MS;
        measure_lag(&mut app.state, &mut app.irc_handles, &mut pings, now);
        assert_eq!(pings.get("net"), Some(&Ping { sent: now.mono_ms, waiting_since: since }));
    }
    let sent = &app.irc_handles.get("net").unwrap().sender.sent;
    assert_eq!(sent.len(), 10);
    assert!(sent.iter().all(|c| c.verb == "PING"));
    now.mono_ms += PING_MS;
    measure_lag(&mut app.state, &mut app.irc_handles, &mut pings, now);
    let last = app.irc_handles.get("net").unwrap().sender.sent.last().unwrap();
    assert_eq!(last.verb, "QUIT");
    assert_eq!(last.params, vec!["Ping timeout"]);
    let shown = app.state.buffers.get("net/net").unwrap().messages.last().unwrap();
    assert_eq!(shown.text, "Connection to net timed out (no PONG for 5 minutes)");
}
