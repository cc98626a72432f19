//! Connections: who they belong to, how they come up and what they leave behind.
use repartee::app::{App, Clock, Config, IrcHandle, TypingConfig};
use repartee::batch::{IrcMessage, Source};
use repartee::collections::{StrMap, StrSet};
use repartee::e2e_gate::{E2eRefusal, Sealed};
use repartee::irc::{apply_bouncer_identity, refresh_e2e_configured_networks};
use repartee::irc_dispatch::{
    after_live_message, decide_dispatch, follow_of, greeting_ended, look_before, missing_nick, After, DccOffer, DccRecord, DccState,
    Dispatch, Gapfill,
};
use repartee::maintenance::Ping;
use repartee::irc_events::{
    handle_irc_event, join_channels, EventStep, IrcEvent, Routed, Sessions, NO_CHATHISTORY,
};
use repartee::keyring::{scoped_context, Keyring};
use repartee::network_scope::network_scope;
use repartee::reconnect::{autosend_commands, replace, spawn_reconnect, start_autoconnects};
use repartee::state::{
    ActivityLevel, Buffer, BufferType, ConnectionStatus, Identity, Provider, ServerConfig,
};
use repartee::wire::{Command, IrcSender};

fn server() -> ServerConfig {
    ServerConfig {
        label: "libera".to_string(),
        address: "irc.test.net".to_string(),
        port: 6697,
        tls: true,
        channels: vec![],
        nick: None,
        username: None,
        password: None,
        sasl_user: None,
        sasl_pass: None,
        sasl_mechanism: None,
        client_cert_path: None,
        sasl_key_path: None,
        autosendcmd: None,
        auto_reconnect: Some(true),
        reconnect_delay: None,
        reconnect_max_retries: None,
        bouncer_network_id: None,
        bouncer_control: false,
    }
}

fn test_app() -> App {
    let mut app = App::new(Config {
        nick: "me".to_string(),
        username: "me".to_string(),
        servers: StrMap::new(),
        aliases: StrMap::new(),
        typing: TypingConfig { send_channels: true, send_queries: true },
        shrink_enabled: false,
        shrink_outgoing: false,
        spellcheck_enabled: false,
    });
    app.state.keyring = Some(Keyring::new());
    app
}

const NOW: i64 = 1_700_000_000_000;

fn clock() -> Clock {
    Clock { mono_ms: 10_000, utc_ms: NOW }
}

fn sealed() -> Sealed {
    Sealed { lines: Ok(vec!["+RPE2E01 c2VhbGVk".to_string()]), rekeys: vec![] }
}

fn handle() -> IrcHandle {
    IrcHandle { sender: IrcSender::connected(), bouncer_identity: None, bouncer_provider: None, local_ip: None }
}

fn identify(app: &mut App, identity: Option<Identity>, provider: Option<Provider>) {
    apply_bouncer_identity(&app.config, &mut app.state, "libera", "libera", identity, provider);
}

fn key(app: &App) -> String {
    app.state.connections.get("libera").unwrap().network_key().clone()
}

fn refusal(app: &mut App) -> E2eRefusal {
    app.state.e2e_send_plan_for_target("libera", "#secret", "private", sealed(), NOW).unwrap_err()
}

fn message(nick: &str, verb: &str, params: &[&str]) -> IrcMessage {
    IrcMessage {
        source: Some(Source {
            nick: nick.to_string(),
            ident: "user".to_string(),
            host: "example.invalid".to_string(),
        }),
        command: Command {
            tags: vec![],
            verb: verb.to_string(),
            params: params.iter().map(|p| p.to_string()).collect(),
        },
    }
}

#[test]
fn soju_colon_password_rotation_preserves_the_network_scope() {
    let mut app = test_app();
    let mut config = server();
    config.username = Some("account".to_string());
    config.password = Some("old:secret".to_string());
    config.bouncer_network_id = Some("42".to_string());
    app.config.servers.insert("libera".to_string(), config.copy());
    let old_scope = network_scope("libera", &config, &app.config.username);
    app.state
        .keyring
        .as_mut()
        .unwrap()
        .set_channel_config(&scoped_context(&old_scope, "#secret"), true);
    app.setup_connection("libera", &config, NOW);
    let identity = || Some(Identity::Network("42".to_string()));
    identify(&mut app, identity(), Some(Provider::Soju));
    let scope = key(&app);
    assert_eq!(refusal(&mut app), E2eRefusal::BouncerScopeChanged);
    app.state.connections.get_mut("libera").unwrap().origin_config.password =
        Some("new:secret".to_string());
    identify(&mut app, identity(), Some(Provider::Soju));
    assert_eq!(key(&app), scope);
    app.state.connections.get_mut("libera").unwrap().origin_config.username =
        Some("other-account".to_string());
    identify(&mut app, identity(), Some(Provider::Soju));
    assert_ne!(key(&app), scope);
}

#[test]
fn discovered_bouncer_scope_preserves_login_and_isolates_rebinding() {
    let mut app = test_app();
    let mut config = server();
    config.username = Some("account/network@laptop".to_string());
    config.sasl_user = Some("account/network@laptop".to_string());
    app.setup_connection("libera", &config, NOW);
    app.state
        .keyring
        .as_mut()
        .unwrap()
        .set_channel_config(&scoped_context(&config.label, "#secret"), true);
    let network = |id: &str| Some(Identity::Network(id.to_string()));
    identify(&mut app, network("42"), None);
    assert_eq!(refusal(&mut app), E2eRefusal::BouncerScopeChanged);
    let conn = app.state.connections.get("libera").unwrap();
    assert!(conn.server_owns_history());
    assert_eq!(conn.bouncer_network_id(), Some("42".to_string()));
    assert_eq!(conn.origin_config.username, config.username);
    assert!(conn.origin_config.bouncer_network_id.is_none());
    assert!(conn.joined_channels.is_empty());
    let scope = key(&app);
    app.state.add_buffer(Buffer::named("libera", BufferType::Channel, "#old-network"));
    let origin = &mut app.state.connections.get_mut("libera").unwrap().origin_config;
    origin.username = Some("account/renamed@desktop".to_string());
    origin.sasl_user = Some("account/renamed@desktop".to_string());
    identify(&mut app, network("42"), None);
    assert_eq!(key(&app), scope);
    assert!(app.state.buffers.contains("libera/#old-network"));
    identify(&mut app, network("43"), None);
    assert_ne!(key(&app), scope);
    assert!(!app.state.buffers.contains("libera/#old-network"));
    identify(&mut app, Some(Identity::Control), None);
    assert!(app.state.connections.get("libera").unwrap().bouncer_control());
    identify(&mut app, None, None);
    assert!(!app.state.connections.get("libera").unwrap().server_owns_history());
}

#[test]
fn dcc_nick_change_keeps_older_unread_chat_first() {
    let mut app = test_app();
    app.setup_connection("libera", &server(), NOW);
    app.state.add_buffer(Buffer::named("libera", BufferType::DccChat, "=alice"));
    app.state.add_buffer(Buffer::named("libera", BufferType::Channel, "#newer"));
    app.state.set_activity("libera/=alice", ActivityLevel::Activity);
    app.state.set_activity("libera/#newer", ActivityLevel::Activity);
    let mut records: StrMap<DccRecord> = StrMap::new();
    let mut chat = record(DccState::Connected);
    chat.nick = "alice".to_string();
    records.insert("alice".to_string(), chat);
    let nick = message("alice", "NICK", &["alicia"]);
    let mut sessions = Sessions::new();
    let event = IrcEvent::Message("libera".to_string(), message("alice", "NICK", &["alicia"]));
    let step = handle_irc_event(&mut app, &mut sessions, event, "libera", None, "#&", clock());
    assert!(matches!(step, EventStep::Received(_, Routed::Live(_))));
    let before = match decide_dispatch(&mut records, &app.state, "libera", &nick, false, None) {
        Dispatch::Handle { hide, before } => {
            assert!(!hide);
            before
        }
        other => panic!("unexpected {other:?}"),
    };
    let left = after_live_message(
        &mut app,
        &mut records,
        "libera",
        &nick,
        before,
        None,
        "",
        None,
        vec![],
        clock(),
    );
    assert!(left.is_empty());
    assert_eq!(records.get("alice").unwrap().nick, "alicia");
    assert!(!app.state.buffers.contains("libera/=alice"));
    assert_eq!(app.state.next_activity_buffer(), Some(&"libera/=alicia".to_string()));
    app.state.set_active_buffer("libera/=alicia");
    assert_eq!(app.state.next_activity_buffer(), Some(&"libera/#newer".to_string()));
}

fn come_up(app: &mut App, sessions: &mut Sessions, caps: &[&str]) -> Vec<String> {
    let mut set = StrSet::new();
    for cap in caps {
        set.insert(cap.to_string());
    }
    let event = IrcEvent::Connected("libera".to_string(), set, None);
    match handle_irc_event(app, sessions, event, "libera", None, "#&", clock()) {
        EventStep::Welcomed(conn, w) => {
            assert_eq!(conn, "libera");
            join_channels(&mut app.state, &mut app.irc_handles, &conn, &w)
        }
        other => panic!("unexpected {other:?}"),
    }
}

#[test]
fn explicit_bouncer_binding_does_not_rejoin_stale_or_configured_channels() {
    let mut app = test_app();
    let mut config = server();
    config.bouncer_network_id = Some("42".to_string());
    config.channels = vec!["#configured".to_string()];
    app.config.servers.insert("libera".to_string(), config.copy());
    app.setup_connection("libera", &config, NOW);
    app.state.connections.get_mut("libera").unwrap().joined_channels = vec!["#stale".to_string()];
    app.state.add_buffer(Buffer::named("libera", BufferType::Channel, "#stale"));
    app.irc_handles.insert("libera".to_string(), handle());
    let mut sessions = Sessions::new();
    assert!(come_up(&mut app, &mut sessions, &["soju.im/bouncer-networks"]).is_empty());
    assert!(!app.state.buffers.contains("libera/#configured"));
    assert!(app.irc_handles.get("libera").unwrap().sender.sent.iter().all(|c| c.verb != "JOIN"));
}

#[test]
fn a_direct_connection_rejoins_what_is_not_configured() {
    let mut app = test_app();
    let mut config = server();
    config.channels = vec!["#Configured key".to_string()];
    config.autosendcmd = Some("/msg NickServ identify".to_string());
    app.config.servers.insert("libera".to_string(), config.copy());
    app.setup_connection("libera", &config, NOW);
    let conn = app.state.connections.get_mut("libera").unwrap();
    conn.joined_channels = vec!["#configured".to_string(), "#more".to_string()];
    conn.reconnect_attempts = 3;
    app.irc_handles.insert("libera".to_string(), handle());
    let mut sessions = Sessions::new();
    let loaded = come_up(&mut app, &mut sessions, &["batch"]);
    assert_eq!(loaded, vec!["libera/#configured", "libera/#configured", "libera/#more"]);
    assert!(app.state.buffers.contains("libera/#more"));
    let sent = &app.irc_handles.get("libera").unwrap().sender.sent;
    assert_eq!(sent.len(), 1);
    assert_eq!(sent[0].verb, "JOIN");
    assert_eq!(sent[0].params, vec!["#more"]);
    let conn = app.state.connections.get("libera").unwrap();
    assert_eq!(conn.status, ConnectionStatus::Connected);
    assert_eq!(conn.reconnect_attempts, 0);
    assert_eq!(conn.chathistory.gapfill_cutoff, Some(NOW));
}

#[test]
fn a_bouncer_without_history_says_so() {
    let mut app = test_app();
    let mut config = server();
    config.bouncer_network_id = Some("42".to_string());
    app.setup_connection("libera", &config, NOW);
    let mut sessions = Sessions::new();
    come_up(&mut app, &mut sessions, &[]);
    let shown = &app.state.buffers.get("libera/libera").unwrap().messages;
    assert_eq!(shown.last().unwrap().text, NO_CHATHISTORY);
    let before = shown.len();
    come_up(&mut app, &mut sessions, &["draft/chathistory"]);
    assert_eq!(app.state.buffers.get("libera/libera").unwrap().messages.len(), before);
}

#[test]
fn a_control_connection_asks_for_its_networks() {
    let mut app = test_app();
    let mut config = server();
    config.bouncer_control = true;
    app.setup_connection("libera", &config, NOW);
    app.irc_handles.insert("libera".to_string(), handle());
    let mut sessions = Sessions::new();
    come_up(&mut app, &mut sessions, &[]);
    assert!(sessions.networks.contains("libera"));
    let sent = &app.irc_handles.get("libera").unwrap().sender.sent;
    assert_eq!(sent[0].verb, "BOUNCER");
    assert_eq!(sent[0].params, vec!["LISTNETWORKS"]);
    come_up(&mut app, &mut sessions, &["soju.im/bouncer-networks-notify"]);
    assert_eq!(app.irc_handles.get("libera").unwrap().sender.sent.len(), 1);
}

#[test]
fn events_of_a_stale_attempt_do_not_count() {
    let mut app = test_app();
    app.setup_connection("libera", &server(), NOW);
    app.irc_handles.insert("libera".to_string(), handle());
    let mut sessions = Sessions::new();
    sessions.attempts.insert("libera".to_string(), 2);
    let lost = || Box::new(IrcEvent::Disconnected("libera".to_string(), Some("reset".to_string())));
    let event = IrcEvent::Attempt("libera".to_string(), 1, lost());
    let step = handle_irc_event(&mut app, &mut sessions, event, "libera", Some(40_000), "#&", clock());
    assert!(matches!(step, EventStep::Stale));
    assert!(app.irc_handles.contains("libera"));
    let event = IrcEvent::Attempt("libera".to_string(), 2, lost());
    let step = handle_irc_event(&mut app, &mut sessions, event, "libera", Some(40_000), "#&", clock());
    assert!(matches!(step, EventStep::Lost(id) if id == "libera"));
    assert!(!app.irc_handles.contains("libera"));
    let conn = app.state.connections.get("libera").unwrap();
    assert_eq!(conn.status, ConnectionStatus::Error);
    assert_eq!(conn.error, Some("reset".to_string()));
    assert_eq!(conn.next_reconnect, Some(40_000));
}

#[test]
fn a_new_handle_starts_a_new_session() {
    let mut app = test_app();
    app.setup_connection("libera", &server(), NOW);
    let mut sessions = Sessions::new();
    for generation in 1..=2 {
        let event = IrcEvent::HandleReady("libera".to_string(), handle());
        handle_irc_event(&mut app, &mut sessions, event, "libera", None, "#&", clock());
        assert_eq!(sessions.generations.get("libera"), Some(&generation));
    }
    assert!(app.irc_handles.contains("libera"));
}

#[test]
fn the_local_address_is_noted() {
    let mut app = test_app();
    app.setup_connection("libera", &server(), NOW);
    assert_eq!(app.state.connections.get("libera").unwrap().local_ip, None);
    let mut live = handle();
    live.local_ip = Some("192.0.2.7".to_string());
    let event = IrcEvent::HandleReady("libera".to_string(), live);
    handle_irc_event(&mut app, &mut Sessions::new(), event, "libera", None, "#&", clock());
    assert_eq!(app.state.connections.get("libera").unwrap().local_ip, Some("192.0.2.7".to_string()));
}

#[test]
fn negotiation_is_shown_line_by_line() {
    let mut app = test_app();
    app.setup_connection("libera", &server(), NOW);
    let before = app.state.buffers.get("libera/libera").unwrap().messages.len();
    let lines = vec!["CAP one".to_string(), "SASL two".to_string()];
    let event = IrcEvent::NegotiationInfo("libera".to_string(), lines);
    handle_irc_event(&mut app, &mut Sessions::new(), event, "libera", None, "#&", clock());
    let shown = &app.state.buffers.get("libera/libera").unwrap().messages;
    assert_eq!(shown[before].text, "%Z56b6c2CAP one%N");
    assert_eq!(shown[before + 1].text, "%Z56b6c2SASL two%N");
}

#[test]
fn a_pong_tells_the_lag() {
    let mut app = test_app();
    app.setup_connection("libera", &server(), NOW);
    app.state.connections.get_mut("libera").unwrap().lag_pending = true;
    let mut sessions = Sessions::new();
    sessions.lag_pings.insert("libera".to_string(), Ping { sent: 9_750, waiting_since: 9_750 });
    let event = IrcEvent::Message("libera".to_string(), message("server", "PONG", &["x"]));
    let step = handle_irc_event(&mut app, &mut sessions, event, "libera", None, "#&", clock());
    assert!(matches!(step, EventStep::Received(..)));
    let conn = app.state.connections.get("libera").unwrap();
    assert_eq!(conn.lag_ms, Some(250));
    assert!(!conn.lag_pending);
}

// What a message leads to.

fn record(state: DccState) -> DccRecord {
    DccRecord {
        nick: "alice".to_string(),
        conn_id: "libera".to_string(),
        addr: "0.0.0.0".to_string(),
        port: 0,
        state,
        passive_token: Some(7),
    }
}

#[test]
fn suppressed_messages_still_change_the_state() {
    let app = test_app();
    let mut records: StrMap<DccRecord> = StrMap::new();
    let join = message("alice", "JOIN", &["#rust"]);
    match decide_dispatch(&mut records, &app.state, "libera", &join, true, None) {
        Dispatch::Handle { hide, .. } => assert!(hide),
        other => panic!("unexpected {other:?}"),
    }
    let said = message("alice", "PRIVMSG", &["#rust", "hi"]);
    assert!(matches!(decide_dispatch(&mut records, &app.state, "libera", &said, true, None), Dispatch::Suppressed(_)));
    match decide_dispatch(&mut records, &app.state, "libera", &said, false, None) {
        Dispatch::Handle { hide, .. } => assert!(!hide),
        other => panic!("unexpected {other:?}"),
    }
}

#[test]
fn a_passive_answer_finds_its_offer() {
    let app = test_app();
    let mut records: StrMap<DccRecord> = StrMap::new();
    records.insert("alice".to_string(), record(DccState::Listening));
    let ctcp = message("alice", "PRIVMSG", &["me", "\u{1}DCC CHAT chat 2130706433 5000 7\u{1}"]);
    let offer = DccOffer { addr: "127.0.0.1".to_string(), port: 5000, passive_token: Some(7) };
    match decide_dispatch(&mut records, &app.state, "libera", &ctcp, false, Some(offer)) {
        Dispatch::Passive(id, _) => assert_eq!(id, "alice"),
        other => panic!("unexpected {other:?}"),
    }
    assert_eq!(records.get("alice").unwrap().port, 5000);
}

#[test]
fn numerics_end_what_they_end() {
    assert_eq!(
        follow_of(&message("server", "366", &["me", "#rust", "End"])).names_ended,
        Some("#rust".to_string())
    );
    assert!(greeting_ended(&message("server", "376", &["me", "End"])));
    assert!(greeting_ended(&message("server", "422", &["me", "No MOTD"])));
    assert!(!greeting_ended(&message("server", "001", &["me", "Hi"])));
    assert_eq!(
        missing_nick(&message("server", "401", &["me", "ghost", "No such nick"])),
        Some("ghost".to_string())
    );
}

// Reconnecting.

#[test]
fn reconnects_wait_for_their_time() {
    let mut app = test_app();
    app.setup_connection("libera", &server(), NOW);
    let conn = app.state.connections.get_mut("libera").unwrap();
    conn.status = ConnectionStatus::Disconnected;
    conn.next_reconnect = Some(10_001);
    assert!(app.check_reconnects(clock()).is_empty());
    app.state.connections.get_mut("libera").unwrap().next_reconnect = Some(10_000);
    assert_eq!(app.check_reconnects(clock()), vec!["libera"]);
    let conn = app.state.connections.get("libera").unwrap();
    assert_eq!(conn.reconnect_attempts, 1);
    assert_eq!(conn.next_reconnect, None);
}

#[test]
fn a_connection_without_configuration_is_not_tried_again() {
    let mut app = test_app();
    app.setup_connection("libera", &server(), NOW);
    assert!(spawn_reconnect(&mut app.state, "libera", true, "libera/libera", "libera", NOW));
    assert!(!spawn_reconnect(&mut app.state, "libera", false, "libera/libera", "libera", NOW));
    assert!(!app.state.connections.get("libera").unwrap().should_reconnect);
}

#[test]
fn servers_connect_by_themselves() {
    let mut app = test_app();
    app.config.servers.insert("libera".to_string(), server());
    let ids = vec!["libera".to_string(), "gone".to_string()];
    assert_eq!(start_autoconnects(&app.config, &mut app.state, &ids, NOW), vec!["libera"]);
    assert!(app.state.connections.contains("libera"));
}

#[test]
fn commands_on_connecting_skip_waits() {
    let found = autosend_commands("/msg NickServ identify $N; wait 5; WAIT 5; /join #rust", "me");
    let lines: Vec<String> =
        found.iter().map(|c| format!("{} {}", c.name, c.args.join(" "))).collect();
    assert_eq!(lines, vec!["msg NickServ identify me", "join #rust"]);
    assert_eq!(replace("a$Nb$N", "$N", "x"), "axbx");
}

#[test]
fn the_keyring_learns_the_networks_in_play() {
    let mut app = test_app();
    app.setup_connection("libera", &server(), NOW);
    refresh_e2e_configured_networks(&app.config, &mut app.state);
    let networks = &app.state.keyring.as_ref().unwrap().networks;
    assert!(networks.contains(&key(&app)));
}

#[test]
fn what_follows_a_message_comes_in_order() {
    let mut app = test_app();
    app.setup_connection("libera", &server(), NOW);
    let mut records: StrMap<DccRecord> = StrMap::new();
    let mut before = look_before(&app.state, "libera");
    before.buffers -= 1;
    let gap = Gapfill { connection_id: "libera".to_string(), target: "bob".to_string() };
    let names = message("server", "366", &["me", "#rust", "End of /NAMES list."]);
    let left = after_live_message(
        &mut app, &mut records, "libera", &names, before, None, "", Some("bob".to_string()), vec![gap],
        clock(),
    );
    match left.as_slice() {
        [After::FillGap(gap), After::Load(id), After::FillChannel(a), After::QueryChannel(b)] => {
            assert_eq!(gap.target, "bob");
            assert_eq!(id, "libera/libera");
            assert_eq!((a.as_str(), b.as_str()), ("#rust", "#rust"));
        }
        other => panic!("unexpected {other:?}"),
    }
    let before = look_before(&app.state, "libera");
    let motd = message("server", "376", &["me", "End of /MOTD command."]);
    let left = after_live_message(
        &mut app, &mut records, "libera", &motd, before, None, "", None, vec![], clock(),
    );
    assert!(matches!(left.as_slice(), [After::FillActive, After::Discover]));
    app.state.set_active_buffer("libera/libera");
    let before = look_before(&app.state, "libera");
    let lines = app.state.buffers.get("libera/libera").unwrap().messages.len();
    let missing = message("server", "401", &["me", "bob", "No such nick/channel"]);
    after_live_message(
        &mut app, &mut records, "libera", &missing, before, None, "", Some("bob".to_string()), vec![],
        clock(),
    );
    let shown = &app.state.buffers.get("libera/libera").unwrap().messages;
    assert_eq!(shown.len(), lines + 1);
    assert_eq!(shown.last().unwrap().text, "DCC CHAT to bob cancelled: no such nick");
}
