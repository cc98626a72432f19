//! The watch list.
use repartee::app::{App, Clock, Config, IrcHandle, TypingConfig};
use repartee::collections::StrMap;
use repartee::monitor::{
    command, ensure_monitor, escape_percent, observe_monitor, reset_monitor, tick_monitors, Change,
    MonitorRequest, MonitorState, ROUND_COMMANDS,
};
use repartee::state::{ConnectionStatus, ServerConfig};
use repartee::wire::{command1, IrcSender};

struct World {
    app: App,
    monitors: StrMap<MonitorState>,
}

fn clock() -> Clock {
    Clock { mono_ms: 1_000, utc_ms: 1_700_000_000_000 }
}

fn world() -> World {
    let mut app = App::new(Config {
        nick: "me".to_string(),
        username: "me".to_string(),
        servers: StrMap::new(),
        aliases: StrMap::new(),
        typing: TypingConfig { send_channels: true, send_queries: true },
        shrink_enabled: false,
        shrink_outgoing: false,
        spellcheck_enabled: false,
    });
    for id in ["one", "two"] {
        let config = ServerConfig {
            label: "server".to_string(),
            address: "127.0.0.1".to_string(),
            port: 1,
            tls: false,
            channels: vec![],
            nick: None,
            username: None,
            password: None,
            sasl_user: None,
            sasl_pass: None,
            sasl_mechanism: None,
            client_cert_path: None,
            sasl_key_path: None,
            autosendcmd: None,
            auto_reconnect: None,
            reconnect_delay: None,
            reconnect_max_retries: None,
            bouncer_network_id: None,
            bouncer_control: false,
        };
        app.setup_connection(id, &config, 0);
        let conn = app.state.connections.get_mut(id).unwrap();
        conn.status = ConnectionStatus::Connected;
        conn.monitor_supported = true;
        app.irc_handles.insert(
            id.to_string(),
            IrcHandle { sender: IrcSender::connected(), bouncer_identity: None, bouncer_provider: None, local_ip: None },
        );
    }
    app.state.set_active_buffer("one/server");
    World { app, monitors: StrMap::new() }
}

fn words(list: &[&str]) -> Vec<String> {
    list.iter().map(|w| w.to_string()).collect()
}

#[test]
fn the_active_network_takes_the_change() {
    let mut w = world();
    w.app.state.set_active_buffer("two/server");
    let args = words(&["add", "Alice"]);
    let r = command(&mut w.app, &mut w.monitors, &args, Ok(words(&["Alice"])), None, clock());
    assert!(matches!(r, MonitorRequest::Changed));
    assert!(w.monitors.contains("two"));
    assert!(!w.monitors.contains("one"));
    match &w.monitors.get("two").unwrap().changes[0] {
        Change::Add(targets) => assert_eq!(targets, &words(&["Alice"])),
        other => panic!("unexpected {other:?}"),
    }
}

#[test]
fn requests_say_what_they_ask() {
    let mut w = world();
    let none = || Ok(vec![]);
    let r = command(&mut w.app, &mut w.monitors, &words(&["list"]), none(), None, clock());
    assert!(matches!(r, MonitorRequest::List));
    let r = command(&mut w.app, &mut w.monitors, &words(&["status"]), none(), None, clock());
    assert!(matches!(r, MonitorRequest::Status));
    let r = command(&mut w.app, &mut w.monitors, &words(&[]), none(), None, clock());
    assert!(matches!(r, MonitorRequest::List));
    let r = command(&mut w.app, &mut w.monitors, &words(&["show"]), none(), None, clock());
    assert!(matches!(r, MonitorRequest::Show));
    let r = command(&mut w.app, &mut w.monitors, &words(&["what", "now"]), none(), None, clock());
    assert!(matches!(r, MonitorRequest::Usage));
    let bad = Err("too many".to_string());
    let r = command(&mut w.app, &mut w.monitors, &words(&["add", "x"]), bad, None, clock());
    assert!(matches!(r, MonitorRequest::BadTargets));
    w.app.state.active_buffer_id = None;
    let r = command(&mut w.app, &mut w.monitors, &words(&["list"]), none(), None, clock());
    assert!(matches!(r, MonitorRequest::Refused));
}

#[test]
fn account_scope_change_discards_old_targets_before_any_resubscription() {
    for selector in 0..5 {
        let mut w = world();
        assert!(ensure_monitor(&mut w.monitors, &w.app.state, "me", "one"));
        w.monitors.get_mut("one").unwrap().rows = words(&["Alice"]);
        let before = w.monitors.get("one").unwrap().scope.clone();
        let config = &mut w.app.state.connections.get_mut("one").unwrap().origin_config;
        match selector {
            0 => config.sasl_user = Some("different-account".to_string()),
            1 => config.username = Some("different-user".to_string()),
            2 => config.sasl_mechanism = Some("EXTERNAL".to_string()),
            3 => config.client_cert_path = Some("fixture-other.pem".to_string()),
            _ => config.sasl_key_path = Some("fixture-other-key.pem".to_string()),
        }
        assert!(ensure_monitor(&mut w.monitors, &w.app.state, "me", "one"));
        let m = w.monitors.get("one").unwrap();
        assert_ne!(m.scope, before);
        assert!(m.rows.is_empty());
        assert_eq!(m.rows(), vec!["MONITOR list is empty"]);
    }
}

#[test]
fn the_scope_holds_the_whole_account() {
    let mut w = world();
    assert!(ensure_monitor(&mut w.monitors, &w.app.state, "default-user", "one"));
    let scope = &w.monitors.get("one").unwrap().scope;
    assert!(scope.contains("default-user"));
    assert!(scope.contains('[') && scope.contains("null"));
}

#[test]
fn a_round_sends_what_is_due() {
    let mut w = world();
    assert!(ensure_monitor(&mut w.monitors, &w.app.state, "me", "one"));
    for i in 0..(ROUND_COMMANDS + 3) {
        w.monitors.get_mut("one").unwrap().outgoing.push(command1("MONITOR", &format!("{i}")));
    }
    tick_monitors(&mut w.monitors, &mut w.app.irc_handles, &mut w.app.state, "me", 0);
    assert_eq!(w.app.irc_handles.get("one").unwrap().sender.sent.len(), ROUND_COMMANDS);
    assert_eq!(w.monitors.get("one").unwrap().outgoing.len(), 3);
    reset_monitor(&mut w.monitors, "one");
    assert!(w.monitors.get("one").unwrap().outgoing.is_empty());
}

#[test]
fn what_was_observed_is_shown_escaped() {
    let mut w = world();
    assert!(ensure_monitor(&mut w.monitors, &w.app.state, "me", "one"));
    let output = words(&["Alice 100% online"]);
    let shown = observe_monitor(&mut w.monitors, &mut w.app.state, "me", "one", true, &output, 0);
    assert!(shown);
    let last = w.app.state.buffers.get("one/server").unwrap().messages.last().unwrap();
    assert!(last.text.contains("Alice 100%% online"));
    assert_eq!(escape_percent("50%"), "50%%");
}

#[test]
fn a_change_that_does_not_fit_is_rejected() {
    let mut w = world();
    let full = Some("The watch list is full".to_string());
    let args = words(&["add", "Alice"]);
    let r = command(&mut w.app, &mut w.monitors, &args, Ok(words(&["Alice"])), full, clock());
    assert!(matches!(r, MonitorRequest::Rejected));
    assert!(w.monitors.get("one").unwrap().changes.is_empty());
    let shown = w.app.state.buffers.get("one/server").unwrap().messages.last().unwrap();
    assert_eq!(shown.text, "The watch list is full");
}
