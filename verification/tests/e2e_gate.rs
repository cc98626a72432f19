//! What goes out in the clear, what is encrypted, and what is refused.
use repartee::app::{App, Clock, Config, IrcHandle, TypingConfig};
use repartee::chathistory::ChatHistory;
use repartee::collections::{StrMap, StrSet};
use repartee::e2e_gate::{
    rekey_notice_target, translatable_outgoing_body, E2eRefusal, RekeySend, SealFault, Sealed,
};
use repartee::gated_send::GatedEcho;
use repartee::keyring::{scoped_context, wire_context, Keyring};
use repartee::state::{
    make_buffer_id, AppState, Buffer, BufferType, Connection, ConnectionStatus, MessageType, NickEntry,
    ServerConfig,
};
use repartee::wire::IrcSender;

fn server() -> ServerConfig {
    ServerConfig {
        label: "TestServer".to_string(),
        address: "irc.test.net".to_string(),
        port: 6697,
        tls: true,
        channels: vec![],
        nick: None,
        username: None,
        password: None,
        sasl_user: None,
        sasl_pass: None,
        sasl_mechanism: None,
        client_cert_path: None,
        sasl_key_path: None,
        autosendcmd: None,
        auto_reconnect: Some(true),
        reconnect_delay: None,
        reconnect_max_retries: None,
        bouncer_network_id: None,
        bouncer_control: false,
    }
}

fn connection() -> Connection {
    Connection {
        id: "test".to_string(),
        label: "TestServer".to_string(),
        status: ConnectionStatus::Connected,
        nick: "me".to_string(),
        own_handle: None,
        user_modes: String::new(),
        error: None,
        lag_ms: None,
        lag_pending: false,
        reconnect_attempts: 0,
        reconnect_delay_secs: 30,
        next_reconnect: None,
        should_reconnect: true,
        joined_channels: vec![],
        origin_config: server(),
        enabled_caps: StrSet::new(),
        multiline: None,
        batch_ref_counter: 0,
        network_scope: None,
        bouncer_identity: None,
        casemapping: "rfc1459".to_string(),
        monitor_supported: false,
        chathistory_max: None,
        local_ip: None,
        chathistory: ChatHistory::new(),
    }
}

fn make_state_with_manager() -> AppState {
    let mut state = AppState::new();
    state.add_connection(connection());
    state.keyring = Some(Keyring::new());
    state
}

fn make_buf(buffer_type: BufferType, name: &str) -> Buffer {
    Buffer::named("test", buffer_type, name)
}

fn keyring(state: &mut AppState) -> &mut Keyring {
    state.keyring.as_mut().unwrap()
}

fn enable(state: &mut AppState, context: &str) {
    keyring(state).set_channel_config(context, true);
}

fn sealed() -> Sealed {
    Sealed { lines: Ok(vec!["+RPE2E01 c2VhbGVk".to_string()]), rekeys: vec![] }
}

fn member(nick: &str, ident: &str, host: &str) -> NickEntry {
    NickEntry {
        nick: nick.to_string(),
        ident: Some(ident.to_string()),
        host: Some(host.to_string()),
        prefix: String::new(),
    }
}

fn texts(state: &AppState, buffer: &str) -> Vec<String> {
    state.buffers.get(buffer).unwrap().messages.iter().map(|m| m.text.clone()).collect()
}

const NOW: i64 = 1_700_000_000_000;

// The part of a message that is prose.

#[test]
fn a_plain_message_is_all_prose() {
    assert_eq!(translatable_outgoing_body("hello there"), Some("hello there".to_string()));
}

#[test]
fn an_action_yields_its_inner_text_only() {
    assert_eq!(
        translatable_outgoing_body("\x01ACTION waves hello\x01"),
        Some("waves hello".to_string())
    );
}

#[test]
fn other_ctcps_are_protocol_and_never_translated() {
    for wire in ["\x01VERSION\x01", "\x01PING 12345\x01", "\x01DCC CHAT chat 1 2\x01"] {
        assert_eq!(translatable_outgoing_body(wire), None, "{wire} is protocol, not prose");
    }
}

#[test]
fn a_message_merely_starting_with_the_ctcp_byte_is_not_a_ctcp() {
    assert_eq!(
        translatable_outgoing_body("\x01not terminated"),
        Some("\x01not terminated".to_string())
    );
}

// Refusals.

#[test]
fn e2e_refusal_messages_are_distinct_and_never_leak_intent() {
    let variants = [E2eRefusal::NoPeerHandle, E2eRefusal::KeyringRead, E2eRefusal::EncryptFailed];
    let msgs: Vec<String> = variants.iter().map(|r| r.user_message()).collect();
    assert!(msgs.iter().all(|m| m.contains("[E2E]")));
    assert_ne!(msgs[0], msgs[1]);
    assert_ne!(msgs[1], msgs[2]);
    assert_ne!(msgs[0], msgs[2]);
    assert!(msgs[1].contains("NOT sent"));
    assert!(msgs[2].contains("NOT sent"));
}

#[test]
fn an_unreadable_keyring_refuses() {
    let mut state = make_state_with_manager();
    keyring(&mut state).faults.handles = true;
    let refusal = state.e2e_send_plan_for_target("test", "bob", "secret", sealed(), NOW).unwrap_err();
    assert_eq!(refusal, E2eRefusal::KeyringRead);
    let mut state = make_state_with_manager();
    keyring(&mut state).faults.configs = true;
    let refusal = state.e2e_send_plan_for_target("test", "#sec", "secret", sealed(), NOW).unwrap_err();
    assert_eq!(refusal, E2eRefusal::KeyringRead);
}

#[test]
fn a_failing_cipher_refuses() {
    let mut state = make_state_with_manager();
    enable(&mut state, "#sec");
    let failed = Sealed { lines: Err(SealFault), rekeys: vec![] };
    let refusal = state.e2e_send_plan_for_target("test", "#sec", "secret", failed, NOW).unwrap_err();
    assert_eq!(refusal, E2eRefusal::EncryptFailed);
}

// The plan for a target.

#[test]
fn send_plan_encrypts_dm_via_cached_handle_without_open_buffer() {
    let mut state = make_state_with_manager();
    keyring(&mut state).cache_dm_handle("TestServer", "bob", "~bob@b.host");
    enable(&mut state, "@~bob@b.host");

    let plan = state.e2e_send_plan_for_target("test", "bob", "meet at 5", sealed(), NOW).unwrap();
    assert!(plan.encrypted);
    assert!(!plan.wire_lines.is_empty());
    assert!(plan.wire_lines.iter().all(|w| w.starts_with("+RPE2E01")));
    assert!(plan.wire_lines.iter().all(|w| !w.contains("meet at 5")));
}

#[test]
fn send_plan_encrypts_dm_via_live_buffer_peer_handle() {
    let mut state = make_state_with_manager();
    let mut buf = make_buf(BufferType::Query, "bob");
    buf.peer_handle = Some("~bob@b.host".to_string());
    state.add_buffer(buf);
    enable(&mut state, "@~bob@b.host");

    let plan = state.e2e_send_plan_for_target("test", "bob", "secret", sealed(), NOW).unwrap();
    assert!(plan.encrypted);
    assert!(plan.wire_lines.iter().all(|w| w.starts_with("+RPE2E01")));
}

#[test]
fn send_plan_refuses_dm_when_enabled_but_handle_unknown() {
    let mut state = make_state_with_manager();
    enable(&mut state, "bob");
    keyring(&mut state).set_configured_networks(vec!["TestServer".to_string()]);

    let refusal = state.e2e_send_plan_for_target("test", "bob", "secret", sealed(), NOW).unwrap_err();
    assert!(matches!(refusal, E2eRefusal::NoPeerHandle));
}

#[test]
fn send_plan_passthrough_when_no_e2e_state() {
    let mut state = make_state_with_manager();
    let plan = state.e2e_send_plan_for_target("test", "carol", "hello there", sealed(), NOW).unwrap();
    assert!(!plan.encrypted);
    assert_eq!(plan.wire_lines, vec!["hello there".to_string()]);
}

#[test]
fn multi_network_upgraded_legacy_dm_refuses_instead_of_plaintext() {
    let mut state = make_state_with_manager();
    keyring(&mut state).set_configured_networks(vec!["TestServer".to_string(), "OtherNet".to_string()]);
    enable(&mut state, "@~bob@old.host");
    keyring(&mut state).peers.insert("bob".to_string(), "~bob@old.host".to_string());
    state.add_buffer(make_buf(BufferType::Query, "bob"));

    let refusal =
        state.e2e_send_plan_for_target("test", "bob", "the secret", sealed(), NOW).unwrap_err();
    assert_eq!(refusal, E2eRefusal::NoPeerHandle);
}

#[test]
fn e2e_possible_for_target_is_fail_closed_where_advisory_under_reports() {
    let mut state = make_state_with_manager();
    state.add_buffer(make_buf(BufferType::Query, "bob"));
    enable(&mut state, "bob");

    assert!(!state.e2e_enabled_for_target("test", "bob"));
    assert!(state.e2e_possible_for_target("test", "bob"));
    assert!(!state.e2e_possible_for_target("test", "carol"));
}

#[test]
fn send_plan_encrypts_channel_when_enabled() {
    let mut state = make_state_with_manager();
    state.add_buffer(make_buf(BufferType::Channel, "#sec"));
    enable(&mut state, "#sec");

    let plan = state.e2e_send_plan_for_target("test", "#sec", "channel secret", sealed(), NOW).unwrap();
    assert!(plan.encrypted);
    assert!(plan.wire_lines.iter().all(|w| w.starts_with("+RPE2E01")));
}

#[test]
fn send_plan_encrypts_channel_case_insensitively() {
    let mut state = make_state_with_manager();
    state.add_buffer(make_buf(BufferType::Channel, "#sec"));
    enable(&mut state, &scoped_context("TestServer", "#sec"));

    let plan = state.e2e_send_plan_for_target("test", "#SEC", "channel secret", sealed(), NOW).unwrap();
    assert!(plan.encrypted);
    assert!(plan.wire_lines.iter().all(|w| w.starts_with("+RPE2E01")));
    assert!(plan.wire_lines.iter().all(|w| !w.contains("channel secret")));
}

#[test]
fn a_channel_is_encrypted_under_every_spelling() {
    let mut state = make_state_with_manager();
    let on = scoped_context("TestServer", "#sec");
    let off = scoped_context("TestServer", "#SEC");
    keyring(&mut state).set_channel_config(&off, false);
    enable(&mut state, &on);
    for name in ["#sec", "#SEC", "#Sec"] {
        let plan = state.e2e_send_plan_for_target("test", name, "channel secret", sealed(), NOW).unwrap();
        assert!(plan.encrypted, "{name}");
    }

    let mut state = make_state_with_manager();
    enable(&mut state, "#old");
    for name in ["#old", "#OLD"] {
        let plan = state.e2e_send_plan_for_target("test", name, "channel secret", sealed(), NOW).unwrap();
        assert!(plan.encrypted, "{name}");
    }
    let plan = state.e2e_send_plan_for_target("test", "#other", "hello", sealed(), NOW).unwrap();
    assert!(!plan.encrypted);
}

#[test]
fn bot_prefix_bypass_is_channel_only_and_visible() {
    let mut state = make_state_with_manager();
    state.add_buffer(make_buf(BufferType::Channel, "#sec"));
    enable(&mut state, &scoped_context("TestServer", "#sec"));
    state.add_buffer(make_buf(BufferType::Channel, "#open"));
    let mut buf = make_buf(BufferType::Query, "bob");
    buf.peer_handle = Some("~bob@b.host".to_string());
    state.add_buffer(buf);
    enable(&mut state, "@~bob@b.host");

    let plan = state.e2e_send_plan_for_target("test", "#sec", "!roll 2d6", sealed(), NOW).unwrap();
    assert!(!plan.encrypted);
    assert_eq!(plan.wire_lines, vec!["!roll 2d6".to_string()]);
    let sec_id = make_buffer_id("test", "#sec");
    assert!(texts(&state, &sec_id).iter().any(|t| t.contains("CLEARTEXT")));

    let plan = state.e2e_send_plan_for_target("test", "#open", ".status", sealed(), NOW).unwrap();
    assert!(!plan.encrypted);
    let open_id = make_buffer_id("test", "#open");
    assert!(texts(&state, &open_id).iter().all(|t| !t.contains("CLEARTEXT")));

    let plan = state
        .e2e_send_plan_for_target("test", "bob", "!important — new address", sealed(), NOW)
        .unwrap();
    assert!(plan.encrypted);
    assert!(plan.wire_lines.iter().all(|w| w.starts_with("+RPE2E01")));
}

#[test]
fn multiline_paste_with_bot_prefix_does_not_bypass_e2e() {
    let mut state = make_state_with_manager();
    state.add_buffer(make_buf(BufferType::Channel, "#sec"));
    enable(&mut state, &scoped_context("TestServer", "#sec"));

    let plan = state
        .e2e_send_plan_for_target("test", "#sec", "!roll 2d6\nthe password is hunter2", sealed(), NOW)
        .unwrap();
    assert!(plan.encrypted);
    assert!(plan.wire_lines.iter().all(|w| !w.contains("hunter2")));
}

#[test]
fn by_target_channel_send_case_variant_still_drains_rekeys() {
    let mut state = make_state_with_manager();
    let mut buf = make_buf(BufferType::Channel, "#sec");
    buf.users.insert("bob".to_string(), member("bob", "~bob", "b.host"));
    state.add_buffer(buf);
    enable(&mut state, &scoped_context("TestServer", "#sec"));

    let plan = state.e2e_send_plan_for_target("test", "#sec", "warmup", sealed(), NOW).unwrap();
    assert!(plan.encrypted);
    assert!(state.pending_e2e_sends.is_empty());

    let rotated = Sealed {
        lines: Ok(vec!["+RPE2E01 cm90YXRlZA==".to_string()]),
        rekeys: vec![RekeySend {
            target_handle: "~bob@b.host".to_string(),
            notice_text: "rekey".to_string(),
        }],
    };
    let plan = state.e2e_send_plan_for_target("test", "#SEC", "after rotate", rotated, NOW).unwrap();
    assert!(plan.encrypted);
    assert_eq!(state.pending_e2e_sends.len(), 1);
    assert_eq!(state.pending_e2e_sends[0].target, "bob");
    assert_eq!(state.pending_e2e_sends[0].connection_id, "test");
    assert_eq!(state.pending_e2e_sends[0].notice_text, "rekey");
}

#[test]
fn advisory_reports_enabled_dm_and_stays_quiet_otherwise() {
    let mut state = make_state_with_manager();
    keyring(&mut state).cache_dm_handle("TestServer", "bob", "~bob@b.host");
    enable(&mut state, "@~bob@b.host");
    state.add_buffer(make_buf(BufferType::Channel, "#sec"));
    enable(&mut state, "#sec");

    assert!(state.e2e_enabled_for_target("test", "bob"));
    assert!(state.e2e_enabled_for_target("test", "#sec"));
    assert!(!state.e2e_enabled_for_target("test", "carol"));
    assert!(!state.e2e_enabled_for_target("test", "#open"));
}

// Who a rekey notice goes to.

#[test]
fn rekey_target_dm_resolves_peer_from_context_despite_empty_users() {
    let buf = make_buf(BufferType::Query, "bob");
    assert_eq!(
        rekey_notice_target(Some(&buf), BufferType::Query, "bob", "@~bob@b.host", "~bob@b.host"),
        Some("bob".to_string())
    );
    assert_eq!(
        rekey_notice_target(None, BufferType::Query, "bob", "@~bob@b.host", "~bob@b.host"),
        Some("bob".to_string())
    );
    assert_eq!(
        rekey_notice_target(Some(&buf), BufferType::Query, "bob", "@~bob@b.host", "~mallory@m.host"),
        None
    );
}

#[test]
fn rekey_target_channel_resolves_via_users_map() {
    let mut buf = make_buf(BufferType::Channel, "#rust");
    buf.users.insert("carol".to_string(), member("carol", "~carol", "c.host"));
    assert_eq!(
        rekey_notice_target(Some(&buf), BufferType::Channel, "#rust", "#rust", "~carol@c.host"),
        Some("carol".to_string())
    );
    assert_eq!(
        rekey_notice_target(Some(&buf), BufferType::Channel, "#rust", "#rust", "~dave@d.host"),
        None
    );
}

// The chokepoint of the senders.

fn app() -> App {
    let mut app = App::new(Config {
        nick: "me".to_string(),
        username: "me".to_string(),
        servers: StrMap::new(),
        aliases: StrMap::new(),
        typing: TypingConfig { send_channels: true, send_queries: true },
        shrink_enabled: false,
        shrink_outgoing: false,
        spellcheck_enabled: false,
    });
    app.state = make_state_with_manager();
    app.state.add_buffer(make_buf(BufferType::Channel, "#open"));
    app.state.set_active_buffer("test/#open");
    app.irc_handles.insert(
        "test".to_string(),
        IrcHandle { sender: IrcSender::connected(), bouncer_identity: None, bouncer_provider: None, local_ip: None },
    );
    app
}

fn clock() -> Clock {
    Clock { mono_ms: 1_000, utc_ms: NOW }
}

#[test]
fn send_gated_message_consults_the_translation_gate() {
    let mut app = app();
    assert!(app.send_gated_message("test", "#open", "hi", None, Some(true), sealed(), clock()));
    assert!(!app.send_gated_message("test", "#open", "hi", None, Some(false), sealed(), clock()));
    assert!(app.irc_handles.get("test").unwrap().sender.sent.is_empty());
    assert!(app.send_gated_message("test", "#open", "hi", None, None, sealed(), clock()));
    assert_eq!(app.irc_handles.get("test").unwrap().sender.sent[0].params, vec!["#open", "hi"]);
}

#[test]
fn a_gated_message_echoes_only_what_was_sent() {
    let mut app = app();
    let echo = Some(GatedEcho {
        buffer_id: "test/#open",
        text: "hi",
        message_type: MessageType::Message,
        even_without_encryption: true,
    });
    assert!(app.send_gated_message("test", "#open", "hi", echo, None, sealed(), clock()));
    assert_eq!(texts(&app.state, "test/#open"), vec!["hi"]);
    app.irc_handles.get_mut("test").unwrap().sender = IrcSender::failing_after(0);
    let echo = Some(GatedEcho {
        buffer_id: "test/#open",
        text: "lost",
        message_type: MessageType::Message,
        even_without_encryption: true,
    });
    assert!(!app.send_gated_message("test", "#open", "lost", echo, None, sealed(), clock()));
    assert!(texts(&app.state, "test/#open").iter().all(|t| t != "lost"));
}

#[test]
fn cleartext_to_an_encrypted_target_is_announced() {
    let mut app = app();
    enable(&mut app.state, "#open");
    app.warn_cleartext_to_e2e_target("test", "#open", "NOTICE", NOW);
    assert_eq!(app.state.buffers.get("test/#open").unwrap().messages.len(), 1);
    app.warn_cleartext_to_e2e_target("test", "#other", "NOTICE", NOW);
    assert_eq!(app.state.buffers.get("test/#open").unwrap().messages.len(), 1);
}

#[test]
fn scoped_contexts_keep_their_wire_name() {
    assert_eq!(wire_context(&scoped_context("Net", "#sec")), "#sec");
    assert_ne!(scoped_context("Net", "#sec"), scoped_context("Other", "#sec"));
}
