//! Messages as they go out.
use repartee::app::{App, Clock, Config, IrcHandle, TypingConfig};
use repartee::chathistory::clamp_limit;
use repartee::collections::{StrMap, StrSet};
use repartee::e2e_gate::Sealed;
use repartee::keyring::{scoped_context, Keyring};
use repartee::multiline::{multiline_frames, needs_multiline, partition, reassemble, Limits};
use repartee::network_scope::{is_bouncer_scope, network_scope};
use repartee::state::{Buffer, BufferType, ConnectionStatus, ServerConfig};
use repartee::submit::{EchoPlan, PlainRoute, PlainStep, QueueOutcome, TranslatePolicy};
use repartee::text::{
    contains, decimal, join, lower, parse_up_to, rsplit_once, same_ignoring_case, split, split_once, trim,
    words,
};
use repartee::times::rfc3339_millis;
use repartee::wire::{split_irc_message, IrcSender, MESSAGE_MAX_BYTES};

#[test]
fn long_messages_are_cut_to_fit() {
    let text = "wörter ".repeat(200);
    let lines = split_irc_message(&text, MESSAGE_MAX_BYTES);
    assert!(lines.len() > 1);
    assert!(lines.iter().all(|l| l.len() <= MESSAGE_MAX_BYTES));
    assert_eq!(split_irc_message("short", MESSAGE_MAX_BYTES), vec!["short"]);
    assert_eq!(split_irc_message("one\ntwo", MESSAGE_MAX_BYTES), vec!["one", "two"]);
}

#[test]
fn multiline_text_survives_its_batch() {
    let limits = Limits { max_bytes: 4096, max_lines: 24 };
    let text = format!("first\n{}\nlast", "x".repeat(900));
    assert!(needs_multiline(&text));
    let batches = partition(&text, limits).unwrap();
    assert_eq!(batches.len(), 1);
    assert_eq!(reassemble(&batches[0]), text);
    let frames = multiline_frames("#a", "ref", &batches[0]);
    assert_eq!(frames[0].verb, "BATCH");
    assert_eq!(frames[0].params, vec!["+ref", "draft/multiline", "#a"]);
    assert_eq!(frames.last().unwrap().params, vec!["-ref"]);
}

#[test]
fn texts_come_apart_and_together() {
    assert_eq!(split_once("a=b=c", '='), Some(("a".to_string(), "b=c".to_string())));
    assert_eq!(rsplit_once("a=b=c", '='), Some(("a=b".to_string(), "c".to_string())));
    assert_eq!(split("a,b,,c", ','), vec!["a", "b", "", "c"]);
    assert_eq!(words("  one  two "), vec!["one", "two"]);
    assert_eq!(join(&vec!["a".to_string(), "b".to_string()], ", "), "a, b");
    assert_eq!(trim("  x "), "x");
    assert_eq!(lower("ABC é"), "abc é");
    assert!(same_ignoring_case("#Rust", "#rUST"));
    assert!(contains("hello world", "lo wo"));
    assert_eq!(decimal(0), "0");
    assert_eq!(decimal(18_446_744_073_709_551_615), "18446744073709551615");
    assert_eq!(parse_up_to("42", 100), Some(42));
    assert_eq!(parse_up_to("420", 100), None);
    assert_eq!(parse_up_to("4x", 100), None);
    assert_eq!(rfc3339_millis(1_704_067_200_123), "2024-01-01T00:00:00.123Z");
    assert_eq!(clamp_limit(1000, Some(100)), 100);
    assert_eq!(clamp_limit(1000, Some(0)), 1000);
}

#[test]
fn maps_keep_the_order_of_their_keys() {
    let mut m: StrMap<u64> = StrMap::new();
    for (i, k) in ["b", "a", "c"].iter().enumerate() {
        m.insert(k.to_string(), i as u64);
    }
    m.insert("b".to_string(), 9);
    assert_eq!(m.len(), 3);
    assert_eq!(m.key_at(0), "b");
    assert_eq!(*m.value_at(0), 9);
    assert_eq!(m.remove("a"), Some(1));
    assert_eq!(m.key_at(1), "c");
    let mut s = StrSet::new();
    assert!(s.insert("x".to_string()));
    assert!(!s.insert("x".to_string()));
    assert!(s.remove("x"));
    assert!(!s.contains("x"));
}

fn server() -> ServerConfig {
    ServerConfig {
        label: "net".to_string(),
        address: "irc.test.net".to_string(),
        port: 6697,
        tls: true,
        channels: vec![],
        nick: None,
        username: Some("account".to_string()),
        password: None,
        sasl_user: None,
        sasl_pass: None,
        sasl_mechanism: None,
        client_cert_path: None,
        sasl_key_path: None,
        autosendcmd: None,
        auto_reconnect: None,
        reconnect_delay: None,
        reconnect_max_retries: None,
        bouncer_network_id: None,
        bouncer_control: false,
    }
}

#[test]
fn networks_of_a_bouncer_have_scopes_of_their_own() {
    let direct = server();
    let mut one = server();
    one.bouncer_network_id = Some("1".to_string());
    let mut two = server();
    two.bouncer_network_id = Some("2".to_string());
    let a = network_scope("bnc", &one, "me");
    let b = network_scope("bnc", &two, "me");
    assert_ne!(a, b);
    assert!(is_bouncer_scope(&a));
    assert!(!is_bouncer_scope(&network_scope("bnc", &direct, "me")));
    assert_ne!(a, network_scope("other", &one, "me"));
}

// What is typed.

fn app() -> App {
    let mut app = App::new(Config {
        nick: "me".to_string(),
        username: "me".to_string(),
        servers: StrMap::new(),
        aliases: StrMap::new(),
        typing: TypingConfig { send_channels: true, send_queries: true },
        shrink_enabled: true,
        shrink_outgoing: true,
        spellcheck_enabled: false,
    });
    app.setup_connection("net", &server(), 0);
    app.state.connections.get_mut("net").unwrap().status = ConnectionStatus::Connected;
    app.state.add_buffer(Buffer::named("net", BufferType::Channel, "#a"));
    app.state.set_active_buffer("net/#a");
    app.shrink_ready = true;
    app.irc_handles.insert(
        "net".to_string(),
        IrcHandle { sender: IrcSender::connected(), bouncer_identity: None, bouncer_provider: None, local_ip: None },
    );
    app
}

fn clock() -> Clock {
    Clock { mono_ms: 1_000, utc_ms: 1_700_000_000_000 }
}

fn sealed() -> Sealed {
    Sealed { lines: Ok(vec!["+RPE2E01 c2VhbGVk".to_string()]), rekeys: vec![] }
}

fn sent(app: &App) -> Vec<Vec<String>> {
    app.irc_handles.get("net").unwrap().sender.sent.iter().map(|c| c.params.clone()).collect()
}

#[test]
fn the_cipher_is_asked_only_for_what_it_seals() {
    let mut app = app();
    let policy = TranslatePolicy::NotApplicable;
    assert_eq!(app.seal_context("hello", &policy, false), None);
    let label = app.state.connections.get("net").unwrap().label.clone();
    let context = scoped_context(&label, "#a");
    let mut keyring = Keyring::new();
    keyring.set_channel_config(&context, true);
    app.state.keyring = Some(keyring);
    assert_eq!(app.seal_context("hello", &policy, false), Some(context));
    assert_eq!(app.seal_context("/help", &policy, false), None);
    assert_eq!(app.seal_context("!roll", &policy, false), None);
    app.log_browser_mode = true;
    assert_eq!(app.seal_context("hello", &policy, false), None);
    app.log_browser_mode = false;
    app.irc_handles.remove("net");
    assert_eq!(app.seal_context("hello", &policy, false), None);
}

#[test]
fn a_message_goes_out_and_is_shown() {
    let mut app = app();
    let step =
        app.handle_plain_message("hello", &TranslatePolicy::NotApplicable, false, sealed(), clock());
    assert!(matches!(step, PlainStep::Done(true)));
    assert_eq!(sent(&app), vec![vec!["#a", "hello"]]);
    assert_eq!(app.state.buffers.get("net/#a").unwrap().messages.last().unwrap().text, "hello");
}

#[test]
fn links_wait_for_the_shortener_unless_it_is_full() {
    let mut app = app();
    let text = "see https://example.invalid/long";
    assert_eq!(app.plain_route(text, &TranslatePolicy::NotApplicable, true), PlainRoute::Shrink);
    let pending =
        match app.handle_plain_message(text, &TranslatePolicy::NotApplicable, true, sealed(), clock()) {
            PlainStep::Shrink(pending) => pending,
            other => panic!("unexpected {other:?}"),
        };
    assert!(sent(&app).is_empty());
    assert_eq!(pending.original_text, text);
    assert!(app.shrink_queued(pending, QueueOutcome::Full, sealed(), clock()));
    assert_eq!(sent(&app), vec![vec!["#a", text]]);
}

#[test]
fn a_server_buffer_takes_no_messages() {
    let mut app = app();
    app.state.set_active_buffer("net/net");
    let step =
        app.handle_plain_message("hello", &TranslatePolicy::NotApplicable, false, sealed(), clock());
    assert!(matches!(step, PlainStep::Done(false)));
    assert!(sent(&app).is_empty());
}

#[test]
fn what_cannot_be_translated_is_not_sent() {
    let mut app = app();
    let refuse = TranslatePolicy::Refuse("too long".to_string());
    let step = app.handle_plain_message("hello", &refuse, false, sealed(), clock());
    assert!(matches!(step, PlainStep::Done(false)));
    assert!(sent(&app).is_empty());
    assert_eq!(app.input, "hello");
    let step =
        app.handle_plain_message("hello", &TranslatePolicy::Translate, false, sealed(), clock());
    match step {
        PlainStep::Translate(request) => {
            assert_eq!(request.text, "hello");
            assert_eq!(Some(&request.buffer_id), app.state.active_buffer_id.as_ref());
            assert_eq!(request.conn_id, app.state.active_buffer().unwrap().connection_id);
            assert_eq!(request.buffer_name, app.state.active_buffer().unwrap().name);
            assert_eq!(request.nick, app.state.connections.get(&request.conn_id).unwrap().nick);
            assert!(!request.is_action);
            assert_eq!(request.echo, EchoPlan::BufferInput);
        }
        other => panic!("unexpected {other:?}"),
    }
}
