//! Uploads.
use repartee::app::{App, Clock, Config, TypingConfig};
use repartee::collections::StrMap;
use repartee::filehost::{command, finish_upload, mime_for, start, Host, Origin, PathParts, Ticket};
use repartee::state::{Buffer, BufferType, ServerConfig};

fn test_app() -> App {
    App::new(Config {
        nick: "me".to_string(),
        username: "me".to_string(),
        servers: StrMap::new(),
        aliases: StrMap::new(),
        typing: TypingConfig { send_channels: true, send_queries: true },
        shrink_enabled: false,
        shrink_outgoing: false,
        spellcheck_enabled: false,
    })
}

fn clock() -> Clock {
    Clock { mono_ms: 10_000, utc_ms: 1_700_000_000_000 }
}

fn no_parts() -> PathParts {
    PathParts { file_name: Some("file".to_string()), extension: None }
}

#[test]
fn remote_command_cannot_read_daemon_files() {
    let app = test_app();
    for origin in [Origin::Web, Origin::Script] {
        let args = vec!["/any/local/file".to_string()];
        let refused = start(&app.state, origin, false, &args, &no_parts(), &Host::Usable).unwrap_err();
        assert!(refused.contains("file picker"));
    }
}

fn setup() -> (App, Ticket) {
    let mut app = test_app();
    let config = ServerConfig {
        label: "test".to_string(),
        address: "localhost".to_string(),
        port: 1,
        tls: false,
        channels: vec![],
        nick: None,
        username: None,
        password: None,
        sasl_user: None,
        sasl_pass: None,
        sasl_mechanism: None,
        client_cert_path: None,
        sasl_key_path: None,
        autosendcmd: None,
        auto_reconnect: None,
        reconnect_delay: None,
        reconnect_max_retries: None,
        bouncer_network_id: Some("1".to_string()),
        bouncer_control: false,
    };
    app.setup_connection("test", &config, 0);
    for name in ["#one", "#two"] {
        app.state.add_buffer(Buffer::named("test", BufferType::Channel, name));
    }
    let ticket = Ticket {
        buffer_id: "test/#one".to_string(),
        connection_id: "test".to_string(),
        scope: app.state.connections.get("test").unwrap().network_key().clone(),
    };
    (app, ticket)
}

fn last_line(app: &App) -> String {
    app.state.buffers.get("test/#one").unwrap().messages.last().unwrap().text.clone()
}

#[test]
fn changing_conversation_during_upload_never_inserts_into_other_input() {
    let (mut app, ticket) = setup();
    app.state.set_active_buffer("test/#two");
    let url = "https://example.invalid/file.png".to_string();
    assert!(finish_upload(&mut app, &ticket, Ok(url), false, clock()));
    assert!(app.input.is_empty());
    assert!(last_line(&app).contains("https://example.invalid/file.png"));
}

#[test]
fn changed_account_discards_the_old_upload_result() {
    let (mut app, ticket) = setup();
    app.state.connections.get_mut("test").unwrap().network_scope = Some("replacement".to_string());
    let before = app.state.buffers.get("test/#one").unwrap().messages.len();
    let url = "https://example.invalid/file.png".to_string();
    assert!(!finish_upload(&mut app, &ticket, Ok(url), false, clock()));
    assert_eq!(app.state.buffers.get("test/#one").unwrap().messages.len(), before);
    assert!(app.input.is_empty());
}

#[test]
fn encoded_upload_url_is_escaped_in_event_but_kept_raw_in_composer() {
    let (mut app, ticket) = setup();
    app.state.set_active_buffer("test/#one");
    let url = "https://example.invalid/my%20file%25.png";
    assert!(finish_upload(&mut app, &ticket, Ok(url.to_string()), false, clock()));
    assert_eq!(app.input, url);
    assert_eq!(last_line(&app), "File uploaded: https://example.invalid/my%%20file%%25.png");
}

#[test]
fn a_failed_upload_is_reported() {
    let (mut app, ticket) = setup();
    app.state.set_active_buffer("test/#one");
    assert!(finish_upload(&mut app, &ticket, Err("too large".to_string()), false, clock()));
    assert_eq!(last_line(&app), "Upload failed: too large");
    assert!(app.input.is_empty());
}

#[test]
fn uploads_name_their_type() {
    assert_eq!(mime_for(&Some("png".to_string())), "image/png");
    assert_eq!(mime_for(&None), "application/octet-stream");
}

#[test]
fn an_upload_needs_an_advertised_host() {
    let (mut app, _) = setup();
    app.state.set_active_buffer("test/#one");
    let args = vec!["/tmp/file.png".to_string()];
    let parts = PathParts {
        file_name: Some("file.png".to_string()),
        extension: Some("png".to_string()),
    };
    assert!(command(&mut app, Origin::Tui, false, &args, &parts, &Host::Absent, clock()).is_none());
    assert!(command(&mut app, Origin::Tui, true, &args, &parts, &Host::Usable, clock()).is_none());
    app.state.connections.get_mut("test").unwrap().status =
        repartee::state::ConnectionStatus::Connected;
    let bad = Host::Unusable("The FILEHOST address is not secure".to_string());
    assert!(command(&mut app, Origin::Tui, false, &args, &parts, &bad, clock()).is_none());
    let upload = command(&mut app, Origin::Tui, false, &args, &parts, &Host::Usable, clock());
    if let Some(upload) = upload {
        assert_eq!(upload.filename, "file.png");
        assert_eq!(upload.mime, "image/png");
        assert_eq!(upload.ticket.buffer_id, "test/#one");
    }
}
