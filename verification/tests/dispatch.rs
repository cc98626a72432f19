//! What messages lead to, and what is around them.
use repartee::app::{App, Clock, Config, IrcHandle, Rect, Regions, TypingConfig};
use repartee::batch::{BatchInfo, IrcMessage, Numbered, Source};
use repartee::collections::{StrMap, StrSet};
use repartee::completed::{dispatch_completed_batch, BatchAction};
use repartee::filehost::{check_file, MAX_UPLOAD_BYTES};
use repartee::irc_dispatch::{
    dispatch_live_irc_message, handle_just_learned, look_before, new_buffers, report_cancelled, request_names, requeue_gapfills,
    route_reply, finish_reply, welcome, Gapfill, Live, Observed, Origin, Watch,
};
use repartee::irc_events::{handle_irc_event, request_caps, CapChange, IrcEvent, Sessions};
use repartee::keyring::Keyring;
use repartee::labels::Labels;
use repartee::log_browser::NetworkLog;
use repartee::monitor::MonitorState;
use repartee::search_results::{receive_search_context, search_context_pending, Answer};
use repartee::server_search::{Pending, Searches, CONTEXT_LABEL};
use repartee::state::{Buffer, BufferType, ConnectionStatus, NickEntry, ServerConfig};
use repartee::submit::{EchoPlan, OutgoingRequest, TranslateOutcome};
use repartee::wire::{command1, Command, IrcSender, Tag};

fn config() -> Config {
    Config {
        nick: "me".to_string(),
        username: "me".to_string(),
        servers: StrMap::new(),
        aliases: StrMap::new(),
        typing: TypingConfig { send_channels: true, send_queries: true },
        shrink_enabled: false,
        shrink_outgoing: false,
        spellcheck_enabled: false,
    }
}

fn app() -> App {
    let mut app = App::new(config());
    app.state.keyring = Some(Keyring::new());
    let server = ServerConfig {
        label: "net".to_string(),
        address: "irc.test.net".to_string(),
        port: 6697,
        tls: true,
        channels: vec![],
        nick: None,
        username: None,
        password: None,
        sasl_user: None,
        sasl_pass: None,
        sasl_mechanism: None,
        client_cert_path: None,
        sasl_key_path: None,
        autosendcmd: None,
        auto_reconnect: None,
        reconnect_delay: None,
        reconnect_max_retries: None,
        bouncer_network_id: None,
        bouncer_control: false,
    };
    app.setup_connection("net", &server, 0);
    app.state.set_active_buffer("net/net");
    app.irc_handles.insert(
        "net".to_string(),
        IrcHandle { sender: IrcSender::connected(), bouncer_identity: None, bouncer_provider: None, local_ip: None },
    );
    app
}

fn clock() -> Clock {
    Clock { mono_ms: 1_000, utc_ms: 1_700_000_000_000 }
}

fn message(verb: &str, params: &[&str]) -> IrcMessage {
    IrcMessage {
        source: Some(Source {
            nick: "bob".to_string(),
            ident: "u".to_string(),
            host: "h".to_string(),
        }),
        command: Command {
            tags: vec![],
            verb: verb.to_string(),
            params: params.iter().map(|p| p.to_string()).collect(),
        },
    }
}

fn sent(app: &App) -> Vec<(String, Vec<String>)> {
    let sender = &app.irc_handles.get("net").unwrap().sender;
    sender.sent.iter().map(|c| (c.verb.clone(), c.params.clone())).collect()
}

fn last_line(app: &App) -> String {
    app.state.buffers.get("net/net").unwrap().messages.last().unwrap().text.clone()
}

#[test]
fn the_greeting_tells_our_nick() {
    let mut app = app();
    app.state.connections.get_mut("net").unwrap().own_handle = Some("old@host".to_string());
    welcome(&mut app.state, &mut app.irc_handles, "net", &message("001", &["renamed", "Hi"]));
    let conn = app.state.connections.get("net").unwrap();
    assert_eq!(conn.nick, "renamed");
    assert_eq!(conn.own_handle, None);
    assert_eq!(sent(&app), vec![("USERHOST".to_string(), vec!["renamed".to_string()])]);
    welcome(&mut app.state, &mut app.irc_handles, "net", &message("002", &["x"]));
    assert_eq!(sent(&app).len(), 1);
}

#[test]
fn names_that_cannot_be_asked_for_are_reported() {
    let mut app = app();
    request_names(
        &mut app.state,
        &mut app.irc_handles,
        "net",
        command1("NAMES", "#rust"),
        "queue full",
        0,
    );
    assert_eq!(sent(&app).len(), 1);
    app.irc_handles.get_mut("net").unwrap().sender = IrcSender::failing_after(0);
    request_names(
        &mut app.state,
        &mut app.irc_handles,
        "net",
        command1("NAMES", "#rust"),
        "100% full",
        0,
    );
    assert_eq!(last_line(&app), "Could not request NAMES: 100%% full");
}

#[test]
fn new_buffers_and_handles_are_noticed() {
    let mut app = app();
    let before = look_before(&app.state, "net");
    assert!(new_buffers(&app.state, before).is_empty());
    assert!(!handle_just_learned(&app.state, "net", before));
    app.state.add_buffer(Buffer::named("net", BufferType::Channel, "#rust"));
    app.state.connections.get_mut("net").unwrap().own_handle = Some("u@h".to_string());
    assert_eq!(new_buffers(&app.state, before), vec!["net/#rust"]);
    assert!(handle_just_learned(&app.state, "net", before));
    let after = look_before(&app.state, "net");
    assert!(!handle_just_learned(&app.state, "net", after));
}

#[test]
fn a_cancelled_chat_is_reported() {
    let mut app = app();
    report_cancelled(&mut app.state, "ghost", 0);
    assert_eq!(last_line(&app), "DCC CHAT to ghost cancelled: no such nick");
}

#[test]
fn gaps_that_could_not_be_filled_wait_again() {
    let gap = |t: &str| Gapfill { connection_id: "net".to_string(), target: t.to_string() };
    let mut queue = vec![gap("#later")];
    requeue_gapfills(&mut queue, vec![gap("#a"), gap("#b")], &vec![true, false]);
    let mut left: Vec<String> = queue.iter().map(|g| g.target.clone()).collect();
    left.sort();
    assert_eq!(left, vec!["#b", "#later"]);
}

#[test]
fn an_acknowledgement_ends_its_request() {
    let mut app = app();
    let mut labels: StrMap<Labels> = StrMap::new();
    let mut own = Labels::new();
    let label = own.register("net/net", 1_000).unwrap();
    labels.insert("net".to_string(), own);
    app.state.connections.get_mut("net").unwrap().enabled_caps.insert("labeled-response".to_string());
    app.state.connections.get_mut("net").unwrap().enabled_caps.insert("batch".to_string());
    app.state.connections.get_mut("net").unwrap().enabled_caps.insert("message-tags".to_string());
    app.state.connections.get_mut("net").unwrap().status = ConnectionStatus::Connected;
    let mut ack = message("ACK", &[]);
    ack.command.tags.push(Tag { key: "label".to_string(), value: Some(label.clone()) });
    let route = route_reply(&mut labels, &app.state, "net", &ack, 1_001);
    assert!(route.acknowledgement);
    finish_reply(&mut labels, "net", &ack);
    assert_eq!(labels.get("net").unwrap().entries.len(), 0);
}

#[test]
fn new_capabilities_are_asked_for_together() {
    let mut app = app();
    request_caps(&mut app.irc_handles, "net", &vec![]);
    assert!(sent(&app).is_empty());
    let offered = vec!["batch".to_string(), "server-time".to_string()];
    let change = CapChange { enabled: None, requested: offered };
    let event = IrcEvent::Cap("net".to_string(), message("CAP", &["me", "NEW", "batch server-time"]), change);
    handle_irc_event(&mut app, &mut Sessions::new(), event, "net", None, "#&", clock());
    assert_eq!(
        sent(&app),
        vec![("CAP".to_string(), vec!["REQ".to_string(), "batch server-time".to_string()])]
    );
}

// What is asked around a search result.

fn around(label: Option<&str>) -> BatchInfo {
    let mut opener = vec![];
    if let Some(l) = label {
        opener.push(Tag { key: "label".to_string(), value: Some(l.to_string()) });
    }
    let mut timed = message("PRIVMSG", &["#Rust", "hi"]);
    timed.command.tags.push(Tag {
        key: "time".to_string(),
        value: Some("2024-01-01T00:00:00.000Z".to_string()),
    });
    BatchInfo {
        kind: "chathistory".to_string(),
        params: vec!["#Rust".to_string()],
        opener,
        messages: vec![
            Numbered { order: 0, message: message("JOIN", &["#Rust"]) },
            Numbered { order: 1, message: timed },
        ],
        dropped: 0,
        spoiled: false,
        started_at: 1_000,
    }
}

#[test]
fn requests_are_looked_through_after_the_capabilities_changed() {
    let mut app = app();
    let mut sessions = Sessions::new();
    let mut own = Labels::new();
    let _ = own.register("net/net", 1_000);
    sessions.labels.insert("net".to_string(), own);
    let conn = app.state.connections.get_mut("net").unwrap();
    conn.status = ConnectionStatus::Connected;
    for cap in ["labeled-response", "batch", "message-tags"] {
        conn.enabled_caps.insert(cap.to_string());
    }
    let unchanged = CapChange { enabled: None, requested: vec![] };
    let event = IrcEvent::Cap("net".to_string(), message("CAP", &["me", "LIST"]), unchanged);
    handle_irc_event(&mut app, &mut sessions, event, "net", None, "#&", clock());
    assert!(sessions.labels.contains("net"));
    let mut left = StrSet::new();
    left.insert("batch".to_string());
    let change = CapChange { enabled: Some(left), requested: vec![] };
    let event = IrcEvent::Cap("net".to_string(), message("CAP", &["me", "DEL", "labeled-response"]), change);
    handle_irc_event(&mut app, &mut sessions, event, "net", None, "#&", clock());
    assert!(!sessions.labels.contains("net"));
    assert!(!app.state.connections.get("net").unwrap().enabled_caps.contains("labeled-response"));
}

fn waiting_for_context(label: &str) -> (App, Searches) {
    let mut app = app();
    let conn = app.state.connections.get_mut("net").unwrap();
    for cap in ["draft/chathistory", "batch", "server-time", "message-tags"] {
        conn.enabled_caps.insert(cap.to_string());
    }
    let mut searches = Searches::new();
    let mut view = Buffer::named("net", BufferType::Special, "*search*");
    view.id = "net/*search*".to_string();
    app.state.add_buffer(view);
    searches.views.insert("net".to_string(), "net/*search*".to_string());
    searches.pending.insert(
        "net".to_string(),
        Pending {
            started: 500,
            target: "#rust".to_string(),
            limit: 50,
            discard: false,
            context: true,
            label: Some(label.to_string()),
        },
    );
    (app, searches)
}

#[test]
fn history_is_offered_to_the_search_first() {
    let label = format!("{CONTEXT_LABEL}1");
    let (mut app, mut searches) = waiting_for_context(&label);
    let plain = around(None);
    let action =
        dispatch_completed_batch(&mut searches, &mut app.state, "net", plain, true, "#", clock());
    assert!(matches!(action, BatchAction::History(_)));
    assert!(searches.pending.contains("net"));
    let ours = around(Some(&label));
    match dispatch_completed_batch(&mut searches, &mut app.state, "net", ours, true, "#", clock()) {
        BatchAction::Searched(Answer::Results { rows, .. }) => assert_eq!(rows.len(), 1),
        other => panic!("unexpected {other:?}"),
    }
    assert!(!searches.pending.contains("net"));
    let late = around(Some(&label));
    let action =
        dispatch_completed_batch(&mut searches, &mut app.state, "net", late, true, "#", clock());
    assert!(matches!(action, BatchAction::Searched(Answer::Nothing)));
}

#[test]
fn an_answer_that_comes_too_late_is_not_shown() {
    let label = format!("{CONTEXT_LABEL}1");
    let (mut app, mut searches) = waiting_for_context(&label);
    let ours = around(Some(&label));
    let late = Clock { mono_ms: 30_501, utc_ms: 1_700_000_000_000 };
    let action = dispatch_completed_batch(&mut searches, &mut app.state, "net", ours, true, "#", late);
    assert!(matches!(action, BatchAction::Searched(Answer::Nothing)));
    let view = app.state.buffers.get("net/*search*").unwrap();
    assert!(view.messages.last().unwrap().text.starts_with("Search timed out"));
}

#[test]
fn context_is_taken_by_the_search_that_asked() {
    let mut app = app();
    let conn = app.state.connections.get_mut("net").unwrap();
    for cap in ["draft/chathistory", "batch", "server-time", "message-tags"] {
        conn.enabled_caps.insert(cap.to_string());
    }
    let mut searches = Searches::new();
    let mut view = Buffer::named("net", BufferType::Special, "*search*");
    view.id = "net/*search*".to_string();
    app.state.add_buffer(view);
    searches.views.insert("net".to_string(), "net/*search*".to_string());
    let label = format!("{CONTEXT_LABEL}1");
    searches.pending.insert(
        "net".to_string(),
        Pending {
            started: 500,
            target: "#rust".to_string(),
            limit: 50,
            discard: false,
            context: true,
            label: Some(label.clone()),
        },
    );
    assert!(search_context_pending(&searches, &app.state, "net", "#RUST"));
    assert!(!search_context_pending(&searches, &app.state, "net", "#other"));
    let mut plain = around(None);
    let (taken, _) =
        receive_search_context(&mut searches, &mut app.state, "net", &mut plain, true, "#", clock());
    assert!(!taken);
    assert_eq!(plain.messages.len(), 2);
    let mut late = around(Some(&format!("{CONTEXT_LABEL}0")));
    let (taken, answer) =
        receive_search_context(&mut searches, &mut app.state, "net", &mut late, true, "#", clock());
    assert!(taken);
    assert!(matches!(answer, Answer::Nothing));
    let mut ours = around(Some(&label));
    let (taken, answer) =
        receive_search_context(&mut searches, &mut app.state, "net", &mut ours, true, "#", clock());
    assert!(taken);
    match answer {
        Answer::Results { rows, context, .. } => {
            assert!(context);
            assert_eq!(rows.len(), 1);
            assert_eq!(rows[0].text, "hi");
        }
        other => panic!("unexpected {other:?}"),
    }
    assert!(!searches.pending.contains("net"));
}

// Around the chat.

#[test]
fn the_active_connection_follows_the_active_buffer() {
    let mut app = app();
    assert_eq!(app.active_conn_id(), Some("net"));
    assert!(app.active_irc_sender().is_some());
    app.state.active_buffer_id = None;
    assert_eq!(app.active_conn_id(), None);
    assert!(app.active_irc_sender().is_none());
}

#[test]
fn a_click_in_the_buffer_list_goes_there() {
    let mut app = app();
    app.state.add_buffer(Buffer::named("net", BufferType::Channel, "#a"));
    let ids = app.state.numbered_buffer_ids();
    app.handle_buffer_list_click(1);
    assert_eq!(app.state.active_buffer_id, Some(ids[1].clone()));
}

#[test]
fn a_click_in_the_chat_finds_its_line() {
    let mut app = app();
    app.regions = Some(Regions {
        chat: Some(Rect { x: 0, y: 0, width: 40, height: 10 }),
        buffer_list: None,
        nick_list: None,
    });
    let lines = app.state.buffers.get("net/net").unwrap().messages.len();
    assert_eq!(app.handle_chat_click(0, false), None);
    assert_eq!(app.handle_chat_click(lines + 20, true), None);
    app.state.add_local_event("one".to_string(), 0);
    assert_eq!(app.handle_chat_click(0, true), Some(0));
}

#[test]
fn nicks_complete_in_order_with_speakers_first() {
    let mut app = app();
    let mut channel = Buffer::named("net", BufferType::Channel, "#a");
    for nick in ["zoe", "adam"] {
        channel.users.insert(
            nick.to_string(),
            NickEntry { nick: nick.to_string(), ident: None, host: None, prefix: String::new() },
        );
    }
    channel.last_speakers = vec!["ZOE".to_string(), "gone".to_string()];
    app.state.add_buffer(channel);
    app.state.set_active_buffer("net/#a");
    let (nicks, speakers) = app.completion_nicks();
    assert_eq!(nicks.len(), 2);
    assert!(nicks.contains(&"adam".to_string()));
    assert_eq!(speakers, vec!["ZOE"]);
}

#[test]
fn the_picker_opens_only_where_emotes_can_be_typed() {
    let mut app = app();
    app.open_emote_picker(false);
    assert!(!app.overlays.picker);
    app.open_emote_picker(true);
    assert!(app.overlays.picker);
}

#[test]
fn a_full_translation_queue_hands_the_text_back() {
    let mut app = app();
    let request = |text: &str| OutgoingRequest {
        conn_id: "net".to_string(),
        buffer_id: "net/#rust".to_string(),
        buffer_name: "#rust".to_string(),
        buffer_type: BufferType::Channel,
        nick: "me".to_string(),
        text: text.to_string(),
        is_action: false,
        echo: EchoPlan::BufferInput,
    };
    assert!(!app.translation_queued(&request("hello"), TranslateOutcome::Taken(9), clock()));
    assert!(app.input.is_empty());
    assert_eq!(app.state.echo_slots.len(), 1);
    assert_eq!(app.state.echo_slots[0].buffer_id, "net/#rust");
    assert_eq!(app.state.echo_slots[0].echo_id, 9);
    assert!(!app.translation_queued(&request("hello"), TranslateOutcome::Full, clock()));
    assert_eq!(app.input, "hello");
    assert!(last_line(&app).contains("the translation queue is full"));
    assert!(!app.translation_queued(&request("again"), TranslateOutcome::Closed, clock()));
    assert!(last_line(&app).contains("the translation worker has died"));
    assert!(!app.translation_queued(&request("gone"), TranslateOutcome::Gone, clock()));
    assert_eq!(app.input, "gone");
    assert!(last_line(&app).contains("this conversation can no longer be translated"));
    assert_eq!(app.state.echo_slots.len(), 1);
}

#[test]
fn the_log_browser_starts_with_its_catalog() {
    let networks =
        vec![NetworkLog { name: "libera".to_string(), buffers: vec!["#rust".to_string()] }];
    let mut app = App::new_log_browser(config(), &networks);
    assert!(app.log_browser_mode);
    assert!(app.state.connections.contains("_log_libera"));
    assert_eq!(app.state.active_buffer_id, Some("_log_libera/#rust".to_string()));
    assert_eq!(app.maybe_paginate_log_buffer(), app.state.active_buffer_id);
    app.state.buffers.get_mut("_log_libera/#rust").unwrap().history_exhausted = true;
    assert_eq!(app.maybe_paginate_log_buffer(), None);
}

#[test]
fn files_are_neither_empty_nor_too_large() {
    assert!(check_file(true, 1).is_ok());
    assert!(check_file(true, MAX_UPLOAD_BYTES).is_ok());
    assert!(check_file(true, 0).is_err());
    assert!(check_file(true, MAX_UPLOAD_BYTES + 1).is_err());
    assert!(check_file(false, 10).unwrap_err().contains("between 1 byte and 64 MiB"));
}

fn live(app: &mut App, sessions: &mut Sessions, m: &IrcMessage) -> Live {
    let from = Origin { number: None, server: None };
    let watch = Watch { handled: false, rows: vec![] };
    dispatch_live_irc_message(app, sessions, "net", m, &from, "me", &watch, clock())
}

#[test]
fn a_greeting_passes_the_observers() {
    let mut app = app();
    let mut sessions = Sessions::new();
    let r = live(&mut app, &mut sessions, &message("001", &["other", "hello"]));
    assert!(matches!(r, Live::Seen(Observed::Onward, None)));
    assert_eq!(app.state.connections.get("net").unwrap().nick, "other");
    assert_eq!(sent(&app), vec![("USERHOST".to_string(), vec!["other".to_string()])]);
}

#[test]
fn observers_claim_their_messages() {
    let mut app = app();
    let mut sessions = Sessions::new();
    let r = live(&mut app, &mut sessions, &message("MARKREAD", &["#rust", "timestamp=*"]));
    assert!(matches!(r, Live::Seen(Observed::Marker(_), None)));
    let from = Origin { number: Some(730), server: None };
    let watch = Watch { handled: true, rows: vec!["bob is there".to_string()] };
    let seen = message("730", &["me", "bob!u@h"]);
    let r =
        dispatch_live_irc_message(&mut app, &mut sessions, "net", &seen, &from, "me", &watch, clock());
    assert!(matches!(r, Live::Seen(Observed::Onward, None)));
    sessions.monitors.insert("net".to_string(), MonitorState::new("any".to_string(), "ascii", true));
    let r =
        dispatch_live_irc_message(&mut app, &mut sessions, "net", &seen, &from, "me", &watch, clock());
    assert!(matches!(r, Live::Seen(Observed::Watched, None)));
    assert!(last_line(&app).contains("bob is there"));
}

#[test]
fn a_labeled_acknowledgement_goes_no_further() {
    let mut app = app();
    let mut sessions = Sessions::new();
    let c = app.state.connections.get_mut("net").unwrap();
    c.status = ConnectionStatus::Connected;
    c.enabled_caps.insert("labeled-response".to_string());
    c.enabled_caps.insert("batch".to_string());
    c.enabled_caps.insert("message-tags".to_string());
    let mut labels = Labels::new();
    let label = labels.register("net/net", 1_000).unwrap();
    sessions.labels.insert("net".to_string(), labels);
    let mut m = message("ACK", &[]);
    m.command.tags = vec![Tag { key: "label".to_string(), value: Some(label.clone()) }];
    assert!(matches!(live(&mut app, &mut sessions, &m), Live::Acknowledged));
    assert!(sessions.labels.get("net").unwrap().resolve(&label).is_none());
}
