//! Searching on the server.
use repartee::app::{App, Clock, Config, IrcHandle, TypingConfig};
use repartee::batch::{BatchInfo, IrcMessage, Numbered, Source};
use repartee::collections::StrMap;
use repartee::search_query::{
    query, BAD_LIMIT, BAD_TIMESTAMP, CONTROL_CHARACTERS, DUPLICATE_SELECTOR, MISSING_VALUE, TOO_LONG,
    UNKNOWN_SELECTOR, USAGE,
};
use repartee::search_results::{
    casefold, receive_search_results, show_results, Answer, INTERRUPTED, INVALID, TOO_MANY,
};
use repartee::server_search::{
    command, context_anchor, context_requested, handle_server_search, match_context,
    open_search_context, tick_server_search, ContextMatch, SearchStep, Searches, SEARCH_CAP, SEARCH_MS,
    TIMED_OUT,
};
use repartee::state::{Buffer, BufferType, ConnectionStatus, ServerConfig};
use repartee::wire::{Command, IrcSender, Tag};

fn words(list: &[&str]) -> Vec<String> {
    list.iter().map(|w| w.to_string()).collect()
}

#[test]
fn selectors_become_attributes() {
    let q = query(&words(&["#rust", "-from", "bob", "-limit", "5", "--", "hello", "world"])).unwrap();
    assert_eq!(q.target, "#rust");
    assert_eq!(q.limit, 5);
    assert_eq!(q.attributes, "in=#rust;from=bob;limit=5;text=hello\\sworld");
}

#[test]
fn times_are_written_in_utc() {
    let q = query(&words(&["#rust", "-after", "2024-01-01T01:00:00+01:00"])).unwrap();
    assert!(q.attributes.contains("after=2024-01-01T00:00:00.000Z"), "{}", q.attributes);
}

#[test]
fn every_mistake_is_named() {
    assert_eq!(query(&words(&[])).unwrap_err(), USAGE);
    assert_eq!(query(&words(&["#rust", "colour:red"])).unwrap_err(), UNKNOWN_SELECTOR);
    assert_eq!(query(&words(&["#rust", "-from"])).unwrap_err(), MISSING_VALUE);
    assert_eq!(query(&words(&["#rust", "-from", "a", "-from", "b"])).unwrap_err(), DUPLICATE_SELECTOR);
    assert_eq!(query(&words(&["#rust", "-limit", "0"])).unwrap_err(), BAD_LIMIT);
    assert_eq!(query(&words(&["#rust", "-limit", "x"])).unwrap_err(), BAD_LIMIT);
    assert_eq!(query(&words(&["#rust", "-before", "yesterday"])).unwrap_err(), BAD_TIMESTAMP);
    assert_eq!(query(&words(&["#rust", "--", "a\u{7}b"])).unwrap_err(), CONTROL_CHARACTERS);
    let long = "x".repeat(600);
    assert_eq!(query(&words(&["#rust", "--", &long])).unwrap_err(), TOO_LONG);
}

struct World {
    app: App,
    searches: Searches,
    now: Clock,
}

fn world() -> World {
    let mut app = App::new(Config {
        nick: "me".to_string(),
        username: "me".to_string(),
        servers: StrMap::new(),
        aliases: StrMap::new(),
        typing: TypingConfig { send_channels: true, send_queries: true },
        shrink_enabled: false,
        shrink_outgoing: false,
        spellcheck_enabled: false,
    });
    let config = ServerConfig {
        label: "net".to_string(),
        address: "127.0.0.1".to_string(),
        port: 1,
        tls: false,
        channels: vec![],
        nick: None,
        username: None,
        password: None,
        sasl_user: None,
        sasl_pass: None,
        sasl_mechanism: None,
        client_cert_path: None,
        sasl_key_path: None,
        autosendcmd: None,
        auto_reconnect: None,
        reconnect_delay: None,
        reconnect_max_retries: None,
        bouncer_network_id: Some("1".to_string()),
        bouncer_control: false,
    };
    app.setup_connection("net", &config, 0);
    let conn = app.state.connections.get_mut("net").unwrap();
    conn.status = ConnectionStatus::Connected;
    for cap in [SEARCH_CAP, "batch", "labeled-response", "message-tags", "draft/chathistory", "server-time"] {
        conn.enabled_caps.insert(cap.to_string());
    }
    app.state.add_buffer(Buffer::named("net", BufferType::Channel, "#rust"));
    app.state.set_active_buffer("net/#rust");
    app.irc_handles.insert(
        "net".to_string(),
        IrcHandle { sender: IrcSender::connected(), bouncer_identity: None, bouncer_provider: None, local_ip: None },
    );
    World {
        app,
        searches: Searches::new(),
        now: Clock { mono_ms: 1_000, utc_ms: 1_700_000_000_000 },
    }
}

impl World {
    fn search(&mut self, list: &[&str]) -> SearchStep {
        command(&mut self.app, &mut self.searches, &words(list), "fresh", self.now)
    }

    fn receive(&mut self, batch: &BatchInfo, clean: bool) -> Answer {
        receive_search_results(
            &mut self.searches,
            &mut self.app.state,
            "net",
            batch,
            clean,
            "#&",
            self.now,
        )
    }

    fn all_lines(&self) -> Vec<String> {
        let mut lines = vec![];
        for i in 0..self.app.state.buffers.len() {
            for m in &self.app.state.buffers.value_at(i).messages {
                lines.push(m.text.clone());
            }
        }
        lines
    }
}

fn found(target: &str, text: &str, time: &str) -> Numbered {
    Numbered {
        order: 0,
        message: IrcMessage {
            source: Some(Source {
                nick: "bob".to_string(),
                ident: "u".to_string(),
                host: "h".to_string(),
            }),
            command: Command {
                tags: vec![
                    Tag { key: "time".to_string(), value: Some(time.to_string()) },
                    Tag { key: "msgid".to_string(), value: Some("m1".to_string()) },
                ],
                verb: "PRIVMSG".to_string(),
                params: words(&[target, text]),
            },
        },
    }
}

fn results(messages: Vec<Numbered>) -> BatchInfo {
    BatchInfo {
        kind: "soju.im/search".to_string(),
        params: vec![],
        opener: vec![],
        messages,
        dropped: 0,
        spoiled: false,
        started_at: 1_000,
    }
}

#[test]
fn a_search_goes_out_and_comes_back() {
    let mut w = world();
    let view = match w.search(&["#rust", "--", "hello"]) {
        SearchStep::Sent { view, .. } => view,
        other => panic!("unexpected {other:?}"),
    };
    assert!(w.searches.pending.contains("net"));
    assert!(w.app.state.buffers.contains(&view));
    let sent = &w.app.irc_handles.get("net").unwrap().sender.sent[0];
    assert_eq!(sent.verb, "SEARCH");
    let batch = results(vec![found("#rust", "hello there", "2024-01-01T00:00:00.000Z")]);
    match w.receive(&batch, true) {
        Answer::Results { target, context, view, rows } => {
            assert_eq!(target, "#rust");
            assert!(!context);
            assert_eq!(rows.len(), 1);
            assert_eq!(rows[0].at_ms, 1_704_067_200_000);
            assert_eq!(rows[0].text, "hello there");
            show_results(
                &mut w.searches,
                &mut w.app.state,
                "net",
                &target,
                context,
                &view,
                rows,
                &vec![false],
                &vec![Some("hello there".to_string())],
                "scope",
                w.now.utc_ms,
            );
        }
        other => panic!("unexpected {other:?}"),
    }
    assert!(!w.searches.pending.contains("net"));
    assert!(w.all_lines().iter().any(|l| l.contains("hello there")));
}

#[test]
fn broken_answers_are_named() {
    let mut w = world();
    w.search(&["#rust", "--", "hello"]);
    assert!(matches!(w.receive(&results(vec![]), false), Answer::Nothing));
    assert!(w.all_lines().iter().any(|l| l.contains(INTERRUPTED)));
    assert!(w.searches.pending.get("net").unwrap().discard);
    let mut w = world();
    w.search(&["#rust", "-limit", "1", "--", "hello"]);
    let two = results(vec![
        found("#rust", "a", "2024-01-01T00:00:00.000Z"),
        found("#rust", "b", "2024-01-01T00:00:01.000Z"),
    ]);
    assert!(matches!(w.receive(&two, true), Answer::Nothing));
    assert!(w.all_lines().iter().any(|l| l.contains(TOO_MANY)));
    w.search(&["#rust", "--", "hello"]);
    let bad = results(vec![found("#rust", "a", "not-a-time")]);
    assert!(matches!(w.receive(&bad, true), Answer::Nothing));
    assert!(w.all_lines().iter().any(|l| l.contains(INVALID)));
}

#[test]
fn only_one_search_at_a_time() {
    let mut w = world();
    w.search(&["#rust", "--", "hello"]);
    assert!(matches!(w.search(&["#rust", "--", "again"]), SearchStep::Refused));
    assert!(matches!(w.search(&["cancel"]), SearchStep::Cancelled));
}

#[test]
fn a_search_without_the_capability_is_refused() {
    let mut w = world();
    w.app.state.connections.get_mut("net").unwrap().enabled_caps.remove(SEARCH_CAP);
    assert!(matches!(w.search(&["#rust", "--", "hello"]), SearchStep::Refused));
    assert!(w.app.irc_handles.get("net").unwrap().sender.sent.is_empty());
}

#[test]
fn a_search_times_out() {
    let mut w = world();
    w.search(&["#rust", "--", "hello"]);
    w.now.mono_ms += SEARCH_MS + 1;
    tick_server_search(&mut w.searches, &mut w.app.state, w.now);
    assert!(w.searches.pending.get("net").unwrap().discard);
    assert!(w.all_lines().iter().any(|l| l.contains(TIMED_OUT)));
}

#[test]
fn a_failed_search_is_taken_from_the_server() {
    let mut w = world();
    w.search(&["#rust", "--", "hello"]);
    let fail = IrcMessage {
        source: None,
        command: Command {
            tags: vec![],
            verb: "FAIL".to_string(),
            params: words(&["SEARCH", "INTERNAL_ERROR", "broken"]),
        },
    };
    assert!(handle_server_search(&mut w.searches, &mut w.app.state, "net", &fail, w.now.utc_ms));
    assert!(!w.searches.pending.contains("net"));
    let other = IrcMessage {
        source: None,
        command: Command { tags: vec![], verb: "PING".to_string(), params: words(&["x"]) },
    };
    assert!(!handle_server_search(&mut w.searches, &mut w.app.state, "net", &other, w.now.utc_ms));
}

#[test]
fn a_result_opens_its_surroundings() {
    let mut w = world();
    w.search(&["#rust", "--", "hello"]);
    let batch = results(vec![found("#rust", "hello there", "2024-01-01T00:00:00.000Z")]);
    if let Answer::Results { target, context, view, rows } = w.receive(&batch, true) {
        let scope = w.app.state.connections.get("net").unwrap().network_key().clone();
        show_results(
            &mut w.searches,
            &mut w.app.state,
            "net",
            &target,
            context,
            &view,
            rows,
            &vec![false],
            &vec![Some("hello there".to_string())],
            &scope,
            w.now.utc_ms,
        );
    }
    let args = words(&["1"]);
    assert!(context_anchor(&w.searches, &w.app.state, "net", &args).is_some());
    let request = open_search_context(
        &w.searches,
        &mut w.app.state,
        "net",
        &args,
        false,
        "fresh",
        w.now.utc_ms,
    );
    let request = request.unwrap();
    assert_eq!(request.target, "#rust");
    assert_eq!(request.at_ms, 1_704_067_200_000);
    let _ = context_requested(&mut w.searches, &mut w.app.state, "net", &request, true, w.now);
    assert!(w.searches.pending.get("net").unwrap().context);
    let mut around = results(vec![]);
    around.kind = "chathistory".to_string();
    around.params = words(&["#rust"]);
    around.opener =
        vec![Tag { key: "label".to_string(), value: request.label.clone() }];
    assert_eq!(match_context(&w.searches, "net", &around, true), ContextMatch::Current);
}

#[test]
fn names_fold_by_their_mapping() {
    assert_eq!(casefold("#Rust[]", "rfc1459"), "#rust{}");
    assert_eq!(casefold("#Rust[]", "ascii"), "#rust[]");
}
