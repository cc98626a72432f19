//! Who is told that nobody is there.
use repartee::app::{App, Clock, Config, IrcHandle, TypingConfig};
use repartee::collections::StrMap;
use repartee::presence::{BouncerPresence, Browser, Mode};
use repartee::state::{Buffer, BufferType, ConnectionStatus, Provider, ServerConfig};
use repartee::wire::{Command, IrcSender};

struct World {
    app: App,
    presence: BouncerPresence,
    terminal: bool,
    now: u64,
}

fn server(network: Option<&str>) -> ServerConfig {
    ServerConfig {
        label: "Bouncer".to_string(),
        address: "127.0.0.1".to_string(),
        port: 1,
        tls: false,
        channels: vec![],
        nick: None,
        username: None,
        password: None,
        sasl_user: None,
        sasl_pass: None,
        sasl_mechanism: None,
        client_cert_path: None,
        sasl_key_path: None,
        autosendcmd: None,
        auto_reconnect: None,
        reconnect_delay: None,
        reconnect_max_retries: None,
        bouncer_network_id: network.map(|n| n.to_string()),
        bouncer_control: false,
    }
}

fn handle(sender: IrcSender) -> IrcHandle {
    IrcHandle { sender, bouncer_identity: None, bouncer_provider: None, local_ip: None }
}

fn world() -> World {
    let mut app = App::new(Config {
        nick: "me".to_string(),
        username: "me".to_string(),
        servers: StrMap::new(),
        aliases: StrMap::new(),
        typing: TypingConfig { send_channels: true, send_queries: true },
        shrink_enabled: false,
        shrink_outgoing: false,
        spellcheck_enabled: false,
    });
    let mut presence = BouncerPresence::new();
    for (id, scope) in [("first", "account-a:1"), ("second", "account-a:2"), ("other", "account-b:1")] {
        app.setup_connection(id, &server(Some("1")), 0);
        let conn = app.state.connections.get_mut(id).unwrap();
        conn.status = ConnectionStatus::Connected;
        conn.network_scope = Some(scope.to_string());
        app.irc_handles.insert(id.to_string(), handle(IrcSender::connected()));
        presence.reconnect_bouncer_presence(&app.state, id);
    }
    World { app, presence, terminal: false, now: 100_000 }
}

impl World {
    fn identify(&mut self, id: &str, provider: Provider) {
        let (number, server, args): (u64, &str, Vec<&str>) = match provider {
            Provider::Lurker => (5, "lurker.bouncer", vec!["me", "BOUNCER_NETID=1", "supported"]),
            Provider::Soju => (4, "bnc", vec!["me", "bnc", "soju", "o", "o"]),
        };
        let args: Vec<String> = args.iter().map(|a| a.to_string()).collect();
        self.presence.observe_bouncer_presence(id, number, Some(server), &args);
    }

    fn tick(&mut self) {
        self.presence.tick_bouncer_presence(
            &self.app.state,
            &mut self.app.irc_handles,
            self.terminal,
            self.now,
        );
    }

    fn browser(&mut self, id: &str, present: bool) {
        if self.presence.update_presence_browser(id, present, self.now) {
            self.tick();
        }
    }

    fn away(&mut self, id: &str, reason: Option<&str>) -> bool {
        self.presence.set_bouncer_away(
            &mut self.app.state,
            &mut self.app.irc_handles,
            id,
            reason,
            self.terminal,
            Clock { mono_ms: self.now, utc_ms: 1_700_000_000_000 },
        )
    }

    fn commands(&self, id: &str) -> Vec<(String, Vec<String>)> {
        self.app.irc_handles.get(id).unwrap().sender.sent.iter().map(shape).collect()
    }
}

fn shape(c: &Command) -> (String, Vec<String>) {
    (c.verb.clone(), c.params.clone())
}

fn told(mode: Mode) -> (String, Vec<String>) {
    shape(&mode.command())
}

fn manual(reason: &str) -> (String, Vec<String>) {
    told(Mode::Manual(reason.to_string()))
}

#[test]
fn failed_presence_write_retries_without_recording_success() {
    let mut w = world();
    w.identify("first", Provider::Soju);
    w.app.irc_handles.insert("first".to_string(), handle(IrcSender::failing_after(0)));
    w.tick();
    assert!(w.presence.connections.get("first").unwrap().sent.is_none());
    assert!(w.presence.connections.get("first").unwrap().attempted.is_some());
    w.app.irc_handles.insert("first".to_string(), handle(IrcSender::connected()));
    w.tick();
    assert!(w.commands("first").is_empty());
    w.presence.connections.get_mut("first").unwrap().attempted = Some(w.now - 6_000);
    w.tick();
    w.tick();
    assert_eq!(w.commands("first"), vec![told(Mode::Absent)]);
    assert!(matches!(w.presence.connections.get("first").unwrap().sent, Some(Mode::Absent)));
    assert!(w.presence.connections.get("first").unwrap().attempted.is_none());
}

#[test]
fn terminal_focus_changes_send_only_presence_transitions() {
    let mut w = world();
    w.identify("first", Provider::Soju);
    w.tick();
    w.tick();
    assert_eq!(w.commands("first"), vec![told(Mode::Absent)]);
    w.terminal = true;
    w.tick();
    w.terminal = false;
    w.tick();
    assert_eq!(
        w.commands("first"),
        vec![told(Mode::Absent), told(Mode::Present), told(Mode::Absent)]
    );
    assert!(w.commands("other").is_empty());
}

#[test]
fn browser_presence_requires_registration_and_expires_per_source() {
    let mut w = world();
    w.identify("first", Provider::Soju);
    w.browser("unknown", true);
    assert_eq!(w.presence.browsers.len(), 0);
    w.presence.register_presence_browser("one");
    w.presence.register_presence_browser("two");
    w.tick();
    w.browser("one", true);
    w.browser("two", true);
    w.browser("one", false);
    assert_eq!(w.commands("first"), vec![told(Mode::Absent), told(Mode::Present)]);
    let stale = Browser { present: true, updated: w.now - 46_000 };
    w.presence.browsers.insert("two".to_string(), Some(stale));
    w.tick();
    assert_eq!(w.commands("first").last(), Some(&told(Mode::Absent)));
    w.browser("one", true);
    w.presence.remove_presence_browser("one");
    w.tick();
    assert_eq!(w.commands("first").last(), Some(&told(Mode::Absent)));
}

#[test]
fn lurker_manual_away_is_shared_with_sibling_networks_only() {
    let mut w = world();
    for id in ["first", "second", "other"] {
        w.identify(id, Provider::Lurker);
    }
    assert!(w.away("first", Some("at lunch")));
    assert_eq!(w.commands("first"), vec![manual("at lunch")]);
    assert_eq!(w.commands("second"), vec![manual("at lunch")]);
    assert_eq!(w.commands("other"), vec![told(Mode::Absent)]);
    w.terminal = true;
    w.tick();
    assert_eq!(w.commands("first").len(), 1);
    assert_eq!(w.commands("second").len(), 1);
    w.presence.reconnect_bouncer_presence(&w.app.state, "second");
    w.identify("second", Provider::Lurker);
    w.tick();
    assert_eq!(w.commands("second").last(), Some(&manual("at lunch")));
    assert!(w.away("second", None));
    assert_eq!(w.commands("first").last(), Some(&told(Mode::Present)));
}

#[test]
fn soju_manual_away_is_network_scoped_and_scope_changes_discard_it() {
    let mut w = world();
    w.identify("first", Provider::Soju);
    w.identify("second", Provider::Soju);
    assert!(w.away("first", Some("away")));
    assert_eq!(w.commands("second"), vec![told(Mode::Absent)]);
    w.app.state.connections.get_mut("first").unwrap().network_scope = Some("account-c:1".to_string());
    w.presence.reconnect_bouncer_presence(&w.app.state, "first");
    w.identify("first", Provider::Soju);
    w.tick();
    assert_eq!(w.commands("first").last(), Some(&told(Mode::Absent)));
}

#[test]
fn removed_network_intent_survives_only_for_lurker_siblings() {
    for provider in [Provider::Soju, Provider::Lurker] {
        let mut w = world();
        w.identify("first", provider);
        w.identify("second", provider);
        w.away("first", Some("old network away"));
        w.app.state.connections.get_mut("first").unwrap().network_scope =
            Some("account-c:1".to_string());
        w.tick();
        assert_eq!(w.presence.manual.contains("account-a:1"), provider == Provider::Lurker);
        w.app.state.connections.get_mut("first").unwrap().network_scope =
            Some("account-a:1".to_string());
        w.presence.reconnect_bouncer_presence(&w.app.state, "first");
        w.identify("first", provider);
        w.tick();
        let expected = if provider == Provider::Lurker {
            manual("old network away")
        } else {
            told(Mode::Absent)
        };
        assert_eq!(w.commands("first").last(), Some(&expected));
    }
}

#[test]
fn direct_irc_and_control_connections_do_not_emit_automatic_away() {
    let mut w = world();
    w.app.state.connections.get_mut("first").unwrap().origin_config.bouncer_control = true;
    w.identify("first", Provider::Lurker);
    w.tick();
    assert!(w.commands("first").is_empty());
    w.app.setup_connection("direct", &server(None), 0);
    w.presence.reconnect_bouncer_presence(&w.app.state, "direct");
    assert!(!w.presence.connections.contains("direct"));
    assert!(!w.away("direct", Some("away")));
}

#[test]
fn an_intent_that_cannot_be_told_is_reported_and_kept() {
    let mut w = world();
    w.identify("first", Provider::Soju);
    w.app.state.add_buffer(Buffer::named("first", BufferType::Query, "alice"));
    w.app.state.set_active_buffer("first/alice");
    w.app.irc_handles.insert("first".to_string(), handle(IrcSender::failing_after(0)));
    assert!(w.away("first", Some("lunch")));
    let shown = |w: &World| {
        w.app.state.buffers.get("first/alice").unwrap().messages.last().unwrap().text.clone()
    };
    assert_eq!(shown(&w), "Failed to send AWAY: connection closed");
    let _gone = w.app.irc_handles.remove("first");
    assert!(w.away("first", Some("lunch")));
    assert_eq!(shown(&w), "Failed to send AWAY: Not connected");
    assert_eq!(w.presence.manual.len(), 1);
}
