//! Pages of history for the browser.
use repartee::app::{App, Config, TypingConfig};
use repartee::collections::StrMap;
use repartee::server_history::{
    ask_page, decide_page, fetch_server_history_page, finish_page, flush_server_history_pages, leaves_other_buffer, pin_page,
    release_web_history, reply_server_history_page, slot_of, wait_for_page, HistoryPages, PageStep,
    PAGE_MS,
};
use repartee::state::{Buffer, BufferType, ConnectionStatus, Message, MessageType, ServerConfig};

fn app() -> App {
    let mut app = App::new(Config {
        nick: "me".to_string(),
        username: "me".to_string(),
        servers: StrMap::new(),
        aliases: StrMap::new(),
        typing: TypingConfig { send_channels: true, send_queries: true },
        shrink_enabled: false,
        shrink_outgoing: false,
        spellcheck_enabled: false,
    });
    let config = ServerConfig {
        label: "Bouncer".to_string(),
        address: "bnc.example.org".to_string(),
        port: 6697,
        tls: true,
        channels: vec![],
        nick: None,
        username: None,
        password: None,
        sasl_user: None,
        sasl_pass: None,
        sasl_mechanism: None,
        client_cert_path: None,
        sasl_key_path: None,
        autosendcmd: None,
        auto_reconnect: None,
        reconnect_delay: None,
        reconnect_max_retries: None,
        bouncer_network_id: Some("42".to_string()),
        bouncer_control: false,
    };
    app.setup_connection("account", &config, 0);
    app.state.add_buffer(Buffer::named("account", BufferType::Channel, "#test"));
    app.state
        .connections
        .get_mut("account")
        .unwrap()
        .enabled_caps
        .insert("draft/chathistory".to_string());
    app
}

fn message(id: u64, at_ms: i64, text: &str) -> Message {
    Message {
        id,
        at_ms,
        message_type: MessageType::Message,
        nick: Some("bob".to_string()),
        nick_mode: None,
        text: text.to_string(),
        highlight: false,
        event_key: None,
        event_params: vec![],
        msgid: None,
    }
}

fn fill(app: &mut App, rows: Vec<Message>) -> Vec<bool> {
    let buffer = app.state.buffers.get_mut("account/#test").unwrap();
    let synthetic = vec![false; rows.len()];
    for row in rows {
        buffer.messages.push(row);
    }
    synthetic
}

fn texts(app: &App, rows: &[usize]) -> Vec<String> {
    let messages = &app.state.buffers.get("account/#test").unwrap().messages;
    rows.iter().map(|i| messages[*i].text.clone()).collect()
}

const CAP: usize = 5_000;

#[test]
fn memory_cursor_keeps_equal_timestamps_with_nonmonotonic_ids() {
    let mut app = app();
    let synthetic = fill(
        &mut app,
        vec![message(30, 1000, "first"), message(20, 1000, "second"), message(10, 1000, "third")],
    );
    let page = ask_page(&app.state, "account/#test", 1, Some(1000), Some(10), "browser", 0);
    assert_eq!(decide_page(&app.state, &synthetic, &page, CAP), PageStep::Reply);
    let reply = reply_server_history_page(&app.state, &synthetic, &page, CAP);
    assert_eq!(texts(&app, &reply.rows), vec!["second"]);
    assert!(reply.has_more);
    assert_eq!(page.session_id, "browser");
    let page = ask_page(&app.state, "account/#test", 1, Some(1000), Some(20), "browser", 0);
    let reply = reply_server_history_page(&app.state, &synthetic, &page, CAP);
    assert_eq!(texts(&app, &reply.rows), vec!["first"]);
}

#[test]
fn legacy_cursors_keep_whole_timestamp_groups() {
    for cursor in [1_700_000_000_000, 1_700_000_000] {
        let mut app = app();
        app.state.connections.get_mut("account").unwrap().enabled_caps.remove("draft/chathistory");
        let mut rows = vec![];
        for (index, offset) in [-1000, 0, 0, 0].into_iter().enumerate() {
            rows.push(message(index as u64, 1_700_000_000_000 + offset, &format!("row-{index}")));
        }
        let synthetic = fill(&mut app, rows);
        let page = ask_page(&app.state, "account/#test", 1, Some(cursor), None, "legacy", 0);
        let reply = reply_server_history_page(&app.state, &synthetic, &page, CAP);
        assert_eq!(texts(&app, &reply.rows), vec!["row-0", "row-1", "row-2", "row-3"]);
        assert!(!reply.has_more);
    }
}

#[test]
fn a_page_that_memory_lacks_is_asked_for() {
    let mut app = app();
    let page = ask_page(&app.state, "account/#test", 50, None, None, "browser", 0);
    assert_eq!(decide_page(&app.state, &vec![], &page, CAP), PageStep::AskLatest);
    let synthetic = fill(&mut app, vec![message(1, 1000, "only")]);
    let page = ask_page(&app.state, "account/#test", 50, Some(1000), Some(1), "browser", 0);
    assert_eq!(decide_page(&app.state, &synthetic, &page, CAP), PageStep::AskOlder);
    app.state.connections.get_mut("account").unwrap().chathistory.sent("#test", 0);
    assert_eq!(decide_page(&app.state, &synthetic, &page, CAP), PageStep::Wait);
}

#[test]
fn a_waiting_page_is_answered_once() {
    let mut app = app();
    app.state.connections.get_mut("account").unwrap().chathistory.sent("#test", 0);
    let mut pages = HistoryPages::new();
    let page = ask_page(&app.state, "account/#test", 50, None, None, "browser", 0);
    wait_for_page(&mut pages, page);
    assert!(flush_server_history_pages(&mut pages, &app.state, PAGE_MS - 1).is_empty());
    assert_eq!(flush_server_history_pages(&mut pages, &app.state, PAGE_MS + 1).len(), 1);
    assert!(flush_server_history_pages(&mut pages, &app.state, PAGE_MS + 2).is_empty());
}

#[test]
fn pending_history_and_readers_follow_buffer_renames() {
    let mut app = app();
    let mut pages = HistoryPages::new();
    let page = ask_page(&app.state, "account/#test", 50, Some(1), None, "browser", 0);
    assert!(!leaves_other_buffer(&pages, &app.state, &page));
    pin_page(&mut pages, &mut app.state, &page);
    wait_for_page(&mut pages, page);
    pages.rekey_pending_history("account/#test", "account/#new");
    pages.rekey_readers("account/#test", "account/#new");
    assert_eq!(pages.pages[0].buffer_id, "account/#new");
    assert_eq!(pages.viewers.get("browser"), Some(&"account/#new".to_string()));
}

#[test]
fn web_history_releases_memory_after_the_last_reader_leaves() {
    let mut app = app();
    let mut pages = HistoryPages::new();
    for session in ["one", "two"] {
        let page = ask_page(&app.state, "account/#test", 50, Some(1), None, session, 0);
        pin_page(&mut pages, &mut app.state, &page);
    }
    assert!(app.state.buffers.get("account/#test").unwrap().pin_backlog);
    assert_eq!(release_web_history(&mut pages, &app.state, false, "one"), None);
    assert_eq!(
        release_web_history(&mut pages, &app.state, false, "two"),
        Some("account/#test".to_string())
    );
    assert_eq!(release_web_history(&mut pages, &app.state, false, "two"), None);
}

#[test]
fn a_cursor_is_as_fine_as_its_client() {
    assert_eq!(slot_of(1_700_000_000_999, 1), slot_of(1_700_000_000_999, 1));
    assert_ne!(slot_of(1_700_000_000_999, 1), slot_of(1_700_000_000_998, 1));
    assert_eq!(slot_of(1_700_000_000_999, 1000), slot_of(1_700_000_000_000, 1000));
}

#[test]
fn timed_out_browser_request_gets_one_reply() {
    let mut app = app();
    let page = ask_page(&app.state, "account/#test", 100, None, None, "browser", 100_000);
    assert_eq!(decide_page(&app.state, &vec![], &page, CAP), PageStep::AskLatest);
    app.state.connections.get_mut("account").unwrap().chathistory.sent("#test", 100_000);
    let mut pages = HistoryPages::new();
    wait_for_page(&mut pages, page);
    pages.pages[0].started = 100_000 - 36_000;
    assert_eq!(flush_server_history_pages(&mut pages, &app.state, 100_000).len(), 1);
    assert!(pages.pages.is_empty());
    assert!(flush_server_history_pages(&mut pages, &app.state, 100_000).is_empty());
}

#[test]
fn disconnected_web_history_timeout_remains_retryable() {
    let mut app = app();
    let page = ask_page(&app.state, "account/#test", 20, None, None, "browser", 100_000);
    app.state.connections.get_mut("account").unwrap().chathistory.sent("#test", 100_000);
    let mut pages = HistoryPages::new();
    wait_for_page(&mut pages, page);
    let conn = app.state.connections.get_mut("account").unwrap();
    conn.enabled_caps.remove("draft/chathistory");
    conn.status = ConnectionStatus::Disconnected;
    pages.pages[0].started = 100_000 - 36_000;
    let due = flush_server_history_pages(&mut pages, &app.state, 100_000);
    assert_eq!(due.len(), 1);
    assert!(reply_server_history_page(&app.state, &vec![], &due[0], CAP).has_more);
    assert!(pages.pages.is_empty());
}

#[test]
fn web_collapse_preserves_history_being_read_in_the_terminal() {
    let mut app = app();
    app.state.active_buffer_id = Some("account/#test".to_string());
    let mut pages = HistoryPages::new();
    pages.viewers.insert("browser".to_string(), "account/#test".to_string());
    assert_eq!(release_web_history(&mut pages, &app.state, true, "browser"), None);
    assert!(!pages.viewers.contains("browser"));
    pages.viewers.insert("browser".to_string(), "account/#test".to_string());
    assert_eq!(
        release_web_history(&mut pages, &app.state, false, "browser"),
        Some("account/#test".to_string())
    );
}

#[test]
fn switching_one_web_session_preserves_another_readers_backlog() {
    let mut app = app();
    app.state.add_buffer(Buffer::named("account", BufferType::Query, "peer"));
    let mut pages = HistoryPages::new();
    for session in ["first", "second"] {
        pages.viewers.insert(session.to_string(), "account/#test".to_string());
    }
    let page = ask_page(&app.state, "account/peer", 20, Some(i64::MAX), None, "first", 0);
    assert!(leaves_other_buffer(&pages, &app.state, &page));
    assert_eq!(release_web_history(&mut pages, &app.state, false, "first"), None);
    assert_eq!(
        release_web_history(&mut pages, &app.state, false, "second"),
        Some("account/#test".to_string())
    );
}

#[test]
fn memory_only_web_pagination_pins_the_cursor_before_live_rows_arrive() {
    let mut app = app();
    let synthetic = fill(&mut app, vec![message(1, 1_000, "cursor")]);
    let page = ask_page(&app.state, "account/#test", 20, Some(i64::MAX), None, "browser", 0);
    let mut pages = HistoryPages::new();
    pin_page(&mut pages, &mut app.state, &page);
    assert!(app.state.buffers.get("account/#test").unwrap().pin_backlog);
    let reply = reply_server_history_page(&app.state, &synthetic, &page, CAP);
    assert_eq!(texts(&app, &reply.rows), vec!["cursor"]);
}

#[test]
fn a_fetched_page_waits_only_where_the_server_was_asked() {
    let mut app = app();
    let mut pages = HistoryPages::new();
    for sent in [false, true] {
        let fetched = fetch_server_history_page(
            &mut pages,
            &mut app.state,
            "account/#test",
            50,
            Some(1_000),
            Some(9),
            "browser",
            false,
            &vec![],
            CAP,
            0,
        );
        assert_eq!(fetched.step, PageStep::AskOlder);
        assert!(fetched.released.is_none());
        assert!(app.state.buffers.get("account/#test").unwrap().pin_backlog);
        let reply = finish_page(
            &mut pages, &app.state, fetched.page, fetched.step, sent, &vec![], CAP,
        );
        assert_eq!(reply.is_none(), sent);
        assert_eq!(pages.pages.len(), if sent { 1 } else { 0 });
    }
    app.state.add_buffer(Buffer::named("account", BufferType::Query, "peer"));
    let fetched = fetch_server_history_page(
        &mut pages,
        &mut app.state,
        "account/peer",
        50,
        Some(1_000),
        None,
        "browser",
        false,
        &vec![],
        CAP,
        0,
    );
    assert_eq!(fetched.released.as_deref(), Some("account/#test"));
    assert_eq!(pages.viewers.get("browser").map(|id| id.as_str()), Some("account/peer"));
}
