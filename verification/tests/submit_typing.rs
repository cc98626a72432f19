//! A submitted line and the typing notification that it settles.
use repartee::alias::ParsedCommand;
use repartee::app::{App, Clock, Config, IrcHandle, TypingConfig};
use repartee::chathistory::ChatHistory;
use repartee::collections::{StrMap, StrSet};
use repartee::commands::{CommandAction, CommandDef, CommandRun, SubmitStep};
use repartee::e2e_gate::Sealed;
use repartee::keyring::Keyring;
use repartee::state::{Buffer, BufferType, Connection, ConnectionStatus, ServerConfig};
use repartee::submit::TranslatePolicy;
use repartee::typing::{TypingSource, TypingState};
use repartee::wire::{command1, Command, IrcSender};

const START: u64 = 60_000;

fn clock() -> Clock {
    Clock { mono_ms: START, utc_ms: 1_700_000_000_000 }
}

fn sealed() -> Sealed {
    Sealed { lines: Ok(vec!["+RPE2E01 c2VhbGVk".to_string()]), rekeys: vec![] }
}

fn make_connection() -> Connection {
    let mut enabled_caps = StrSet::new();
    enabled_caps.insert("message-tags".to_string());
    Connection {
        id: "net".to_string(),
        label: "NetServer".to_string(),
        status: ConnectionStatus::Connected,
        nick: "me".to_string(),
        own_handle: None,
        user_modes: String::new(),
        error: None,
        lag_ms: None,
        lag_pending: false,
        reconnect_attempts: 0,
        reconnect_delay_secs: 30,
        next_reconnect: None,
        should_reconnect: true,
        joined_channels: vec![],
        origin_config: ServerConfig {
            label: "NetServer".to_string(),
            address: "irc.test.net".to_string(),
            port: 6697,
            tls: true,
            channels: vec![],
            nick: None,
            username: None,
            password: None,
            sasl_user: None,
            sasl_pass: None,
            sasl_mechanism: None,
            client_cert_path: None,
            sasl_key_path: None,
            autosendcmd: None,
            auto_reconnect: Some(true),
            reconnect_delay: None,
            reconnect_max_retries: None,
            bouncer_network_id: None,
            bouncer_control: false,
        },
        enabled_caps,
        multiline: None,
        batch_ref_counter: 0,
        network_scope: None,
        bouncer_identity: None,
        casemapping: "rfc1459".to_string(),
        monitor_supported: false,
        chathistory_max: None,
        local_ip: None,
        chathistory: ChatHistory::new(),
    }
}

fn test_app() -> App {
    let mut app = App::new(Config {
        nick: "me".to_string(),
        username: "me".to_string(),
        servers: StrMap::new(),
        aliases: StrMap::new(),
        typing: TypingConfig { send_channels: true, send_queries: true },
        shrink_enabled: false,
        shrink_outgoing: false,
        spellcheck_enabled: false,
    });
    app.state.keyring = Some(Keyring::new());
    app
}

fn registry() -> Vec<CommandDef> {
    ["me", "query", "whois"]
        .iter()
        .map(|n| CommandDef { name: n.to_string(), aliases: vec![] })
        .collect()
}

fn line(c: &Command) -> String {
    let mut s = String::new();
    for (i, t) in c.tags.iter().enumerate() {
        s.push_str(if i == 0 { "@" } else { ";" });
        s.push_str(&t.key);
        if let Some(v) = &t.value {
            s.push_str(&format!("={v}"));
        }
    }
    if !c.tags.is_empty() {
        s.push(' ');
    }
    s.push_str(&c.verb);
    for p in &c.params {
        if p.is_empty() || p.starts_with(':') || p.contains(' ') {
            s.push_str(&format!(" :{p}"));
        } else {
            s.push_str(&format!(" {p}"));
        }
    }
    s.push_str("\r\n");
    s
}

struct Wired {
    app: App,
}

impl Wired {
    fn new() -> Self {
        let mut app = test_app();
        app.state.add_connection(make_connection());
        app.state.add_buffer(Buffer::named("net", BufferType::Channel, "#rust"));
        app.state.add_buffer(Buffer::named("net", BufferType::Query, "bob"));
        app.irc_handles.insert(
            "net".to_string(),
            IrcHandle { sender: IrcSender::connected(), bouncer_identity: None, bouncer_provider: None, local_ip: None },
        );
        Self { app }
    }

    fn submit(&mut self, text: &str) {
        let typed_in = self.app.state.active_buffer_id.clone();
        let step =
            self.app.submit_from_tui(text, &TranslatePolicy::NotApplicable, false, sealed(), clock());
        if let SubmitStep::Command(parsed) = step {
            self.run(&parsed, typed_in);
        }
    }

    fn run(&mut self, parsed: &ParsedCommand, typed_in: Option<String>) {
        let action =
            self.app.execute_command_with_depth(parsed, 0, &registry(), false, false, clock());
        let name = match action {
            CommandAction::Builtin(name) => name,
            other => panic!("unexpected {other:?}"),
        };
        match name.as_str() {
            "whois" => {
                let sender = &mut self.app.irc_handles.get_mut("net").unwrap().sender;
                sender.send(command1("WHOIS", &parsed.args[0])).unwrap();
            }
            "query" => self.app.state.set_active_buffer(&format!("net/{}", parsed.args[0])),
            "me" => {
                let id = typed_in.unwrap();
                let target = self.app.state.buffers.get(&id).unwrap().name.clone();
                let wire = format!("\u{1}ACTION {}\u{1}", parsed.args.join(" "));
                if self.app.send_gated_message("net", &target, &wire, None, None, sealed(), clock()) {
                    self.app.typing.note_message_sent(&id, START);
                }
            }
            other => panic!("unexpected /{other}"),
        }
    }

    fn wire(&self) -> Vec<String> {
        match self.app.irc_handles.get("net") {
            Some(handle) => handle.sender.sent.iter().map(line).collect(),
            None => vec![],
        }
    }

    fn owed(&self, buffer_id: &str) -> Option<TypingState> {
        self.app.typing.sent_state(buffer_id)
    }

    fn suppressed(&self, buffer_id: &str) -> bool {
        self.app.typing.last_message_at(buffer_id).is_some()
    }

    fn enable_e2e_on_bob(&mut self) {
        self.app.state.keyring.as_mut().unwrap().set_channel_config("bob", true);
    }
}

#[test]
fn an_e2e_refused_submit_still_owes_the_typing_done() {
    let mut w = Wired::new();
    w.enable_e2e_on_bob();
    w.app.state.set_active_buffer("net/bob");
    w.app.typing.confirm_sent("net/bob", TypingState::Paused, START);

    w.submit("are you there?");

    assert!(w.wire().is_empty());
    assert_eq!(w.owed("net/bob"), Some(TypingState::Paused));
    assert!(!w.suppressed("net/bob"));
}

#[test]
fn a_send_on_a_dead_connection_still_owes_the_typing_done() {
    let mut w = Wired::new();
    w.app.irc_handles = StrMap::new();
    w.app.state.set_active_buffer("net/#rust");
    w.app.typing.confirm_sent("net/#rust", TypingState::Active, START);

    w.submit("hello");

    assert!(w.wire().is_empty());
    assert_eq!(w.owed("net/#rust"), Some(TypingState::Active));
    assert!(!w.suppressed("net/#rust"));
}

#[test]
fn a_message_that_reaches_the_wire_retires_the_target_and_suppresses_typing() {
    let mut w = Wired::new();
    w.app.state.set_active_buffer("net/#rust");
    w.app.typing.confirm_sent("net/#rust", TypingState::Active, START);

    w.submit("hello");

    assert_eq!(w.wire(), vec!["PRIVMSG #rust hello\r\n"]);
    assert_eq!(w.owed("net/#rust"), None);
    assert!(w.suppressed("net/#rust"));
}

#[test]
fn a_local_command_charges_nothing_even_when_it_writes_to_the_wire() {
    let mut w = Wired::new();
    w.app.state.set_active_buffer("net/#rust");
    w.app.typing.confirm_sent("net/#rust", TypingState::Active, START);

    w.submit("/whois bob");

    assert!(w.wire().iter().any(|l| l.starts_with("WHOIS")));
    assert_eq!(w.owed("net/#rust"), Some(TypingState::Active));
    assert!(!w.suppressed("net/#rust"));
}

#[test]
fn an_action_counts_as_a_message_only_when_it_reaches_the_wire() {
    let mut w = Wired::new();
    w.app.state.set_active_buffer("net/#rust");
    w.app.typing.confirm_sent("net/#rust", TypingState::Active, START);

    w.submit("/me waves");

    assert_eq!(w.wire(), vec!["PRIVMSG #rust :\u{1}ACTION waves\u{1}\r\n"]);
    assert_eq!(w.owed("net/#rust"), None);
    assert!(w.suppressed("net/#rust"));

    w.enable_e2e_on_bob();
    w.app.state.set_active_buffer("net/bob");
    w.app.typing.confirm_sent("net/bob", TypingState::Paused, START);

    w.submit("/me waves");

    assert_eq!(w.wire().len(), 1);
    assert_eq!(w.owed("net/bob"), Some(TypingState::Paused));
    assert!(!w.suppressed("net/bob"));
}

#[test]
fn the_typing_update_lands_on_the_buffer_we_typed_in_not_the_one_we_end_up_in() {
    let mut w = Wired::new();
    w.app.state.set_active_buffer("net/#rust");
    w.app.typing.confirm_sent("net/#rust", TypingState::Active, START);

    w.submit("/query bob");

    assert_eq!(w.app.state.active_buffer_id.as_deref(), Some("net/bob"));
    assert_eq!(w.owed("net/#rust"), Some(TypingState::Active));
    assert!(!w.suppressed("net/#rust"));
    assert!(!w.suppressed("net/bob"));
}

fn start_typing_in(w: &mut Wired, buffer_id: &str) {
    w.app.state.set_active_buffer(buffer_id);
    w.app.input = "hello wor".to_string();
    w.app.on_input_changed(clock());
    assert_eq!(w.app.typing.source_buffer(&TypingSource::Tui), Some(buffer_id.to_string()));
    assert_eq!(w.app.typing.sent_state(buffer_id), Some(TypingState::Active));
}

fn what_the_next_tick_says_to(w: &mut Wired, buffer_id: &str, secs: u64) -> Vec<TypingState> {
    w.app
        .typing
        .on_tick(START + secs * 1000)
        .into_iter()
        .filter(|(id, _)| id == buffer_id)
        .map(|(_, state)| state)
        .collect()
}

#[test]
fn a_web_buffer_switch_moves_the_tui_typing_source() {
    let mut w = Wired::new();
    start_typing_in(&mut w, "net/#rust");

    w.app.state.set_active_buffer("net/bob");
    w.app.sync_tui_typing_source(clock());

    assert_eq!(w.app.typing.source_buffer(&TypingSource::Tui), Some("net/bob".to_string()));
    assert_eq!(what_the_next_tick_says_to(&mut w, "net/#rust", 4), vec![TypingState::Done]);
}

#[test]
fn every_other_non_keyboard_switch_moves_the_source_too() {
    let mut w = Wired::new();
    start_typing_in(&mut w, "net/#rust");

    w.app.state.set_active_buffer("net/bob");
    w.app.sync_tui_typing_source(clock());

    assert_eq!(w.app.typing.source_buffer(&TypingSource::Tui), Some("net/bob".to_string()));
    assert_eq!(what_the_next_tick_says_to(&mut w, "net/#rust", 4), vec![TypingState::Done]);
}

#[test]
fn reload_runs_the_same_post_config_typing_sync_that_set_does() {
    let mut w = Wired::new();
    start_typing_in(&mut w, "net/#rust");

    w.app.apply_typing_config(TypingConfig { send_channels: false, send_queries: true });

    assert_eq!(w.app.typing.sent_state("net/#rust"), None);
    for secs in [4, 8, 600] {
        assert!(what_the_next_tick_says_to(&mut w, "net/#rust", secs).is_empty(), "t+{secs}s");
    }
}

#[test]
fn a_transient_swap_and_restore_leaves_the_source_alone() {
    let mut w = Wired::new();
    start_typing_in(&mut w, "net/#rust");
    let before = w.wire().len();

    let prior = w.app.state.active_buffer_id.clone();
    w.app.state.active_buffer_id = Some("net/bob".to_string());
    w.app.state.active_buffer_id = prior;
    w.app.sync_tui_typing_source(clock());

    assert_eq!(w.app.typing.source_buffer(&TypingSource::Tui), Some("net/#rust".to_string()));
    assert_eq!(w.wire().len(), before);
}

#[test]
fn closing_the_active_buffer_releases_the_tui_source() {
    let mut w = Wired::new();
    start_typing_in(&mut w, "net/#rust");

    w.app.state.active_buffer_id = None;
    w.app.sync_tui_typing_source(clock());

    assert_eq!(w.app.typing.source_buffer(&TypingSource::Tui), None);
    assert_eq!(what_the_next_tick_says_to(&mut w, "net/#rust", 4), vec![TypingState::Done]);
}

#[test]
fn a_web_submit_reports_the_real_outcome_too() {
    let mut w = Wired::new();
    w.enable_e2e_on_bob();
    w.app.typing.confirm_sent("net/bob", TypingState::Paused, START);
    w.app.on_web_typing("s1", "net/bob", true, clock());

    w.app.submit_from_web(
        "s1",
        "net/bob",
        "are you there?",
        &TranslatePolicy::NotApplicable,
        false,
        sealed(),
        clock(),
    );

    assert!(w.wire().is_empty());
    assert_eq!(w.owed("net/bob"), Some(TypingState::Paused));
    assert!(!w.suppressed("net/bob"));

    w.app.submit_from_web(
        "s1",
        "net/#rust",
        "hello",
        &TranslatePolicy::NotApplicable,
        false,
        sealed(),
        clock(),
    );
    assert_eq!(w.wire(), vec!["PRIVMSG #rust hello\r\n"]);
    assert_eq!(w.owed("net/#rust"), None);
    assert!(w.suppressed("net/#rust"));
    assert_eq!(w.app.typing.source_is_active(&TypingSource::Web("s1".to_string())), Some(false));
}

#[test]
fn typing_is_announced_with_its_tag() {
    let mut w = Wired::new();
    start_typing_in(&mut w, "net/#rust");
    assert_eq!(w.wire(), vec!["@+typing=active TAGMSG #rust\r\n"]);
}

#[test]
fn aliases_run_part_by_part_and_never_too_deep() {
    let mut w = Wired::new();
    w.app.config.aliases.insert("hi".to_string(), "/hi".to_string());
    let parsed = ParsedCommand { name: "hi".to_string(), args: vec![] };
    let action = w.app.execute_command_with_depth(&parsed, 0, &registry(), false, false, clock());
    match action {
        CommandAction::Parts(parts) => assert_eq!(parts, vec!["/hi"]),
        other => panic!("unexpected {other:?}"),
    }
    let mut run = CommandRun::start("/hi");
    let mut depth = 0;
    while let Some((_, d)) = run.next() {
        depth = d;
        let action = w.app.execute_command_with_depth(&parsed, d, &registry(), false, false, clock());
        match action {
            CommandAction::Parts(parts) => run.expand(&parts, d),
            CommandAction::LimitReached => {}
            other => panic!("unexpected {other:?}"),
        }
    }
    assert_eq!(depth, 11);
}

#[test]
fn unknown_commands_are_reported() {
    let mut w = Wired::new();
    w.app.state.set_active_buffer("net/#rust");
    let parsed = ParsedCommand { name: "nope".to_string(), args: vec![] };
    let action = w.app.execute_command_with_depth(&parsed, 0, &registry(), false, false, clock());
    assert!(matches!(action, CommandAction::Unknown));
    let shown = &w.app.state.buffers.get("net/#rust").unwrap().messages;
    assert_eq!(shown[0].text, "Unknown command: /nope. Type /help for a list.");
    let action = w.app.execute_command_with_depth(&parsed, 0, &registry(), false, true, clock());
    assert!(matches!(action, CommandAction::Script));
}
