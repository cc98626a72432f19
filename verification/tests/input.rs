//! Keys, aliases, pasting and the mouse.
use repartee::alias::{expand_alias_template, parse_command, split_chain};
use repartee::app::{App, Checker, Clock, Config, Rect, Regions, Spell, TypingConfig};
use repartee::collections::StrMap;
use repartee::keys::{
    font_size_from_window_px, key_event_to_bytes, KeyAction, KeyCode, KeyEvent, Mods, ESC_TIMEOUT_MS,
};
use repartee::mouse::{
    forward_mouse_to_shell, resolve_scroll, MouseAction, MouseButton, MouseEvent, MouseKind,
};
use repartee::overlays::{
    check_spelling_after_separator, completion_commands, handle_wizard_click, handle_wizard_key,
    insert_emote, CheckedWord, DictEntry, DictEvent, Focus, Picker, WizardHit, WizardKey, WizardRects,
};
use repartee::paste::{PasteAction, MAX_PASTE_LINES};
use repartee::state::{Buffer, BufferType, NickEntry, ServerConfig};

// The size of a character cell.

#[test]
fn font_size_divides_pixels_by_cells() {
    assert_eq!(font_size_from_window_px(80, 24, 640, 384), Some((8, 16)));
}

#[test]
fn font_size_tracks_a_larger_font() {
    assert_eq!(font_size_from_window_px(80, 24, 800, 480), Some((10, 20)));
}

#[test]
fn font_size_none_when_pixels_unreported() {
    assert_eq!(font_size_from_window_px(80, 24, 0, 0), None);
    assert_eq!(font_size_from_window_px(80, 24, 640, 0), None);
    assert_eq!(font_size_from_window_px(80, 24, 0, 384), None);
}

#[test]
fn font_size_none_when_grid_is_zero() {
    assert_eq!(font_size_from_window_px(0, 24, 640, 384), None);
    assert_eq!(font_size_from_window_px(80, 0, 640, 384), None);
}

// Aliases.

fn args(s: &[&str]) -> Vec<String> {
    s.iter().map(|a| (*a).to_string()).collect()
}

#[test]
fn alias_positional_args() {
    let result = expand_alias_template("/join $0", &args(&["#test"]), "", "", "");
    assert_eq!(result, "/join #test");
}

#[test]
fn alias_all_args() {
    let result = expand_alias_template("/msg NickServ $*", &args(&["identify", "pass"]), "", "", "");
    assert_eq!(result, "/msg NickServ identify pass");
}

#[test]
fn alias_auto_append_star() {
    let result = expand_alias_template("/msg NickServ", &args(&["identify", "pass"]), "", "", "");
    assert_eq!(result, "/msg NickServ identify pass");
}

#[test]
fn alias_context_variables() {
    let result = expand_alias_template("/topic $C", &args(&[]), "#rust", "ferris", "libera");
    assert_eq!(result, "/topic #rust");
}

#[test]
fn alias_context_braced_syntax() {
    let result = expand_alias_template("/msg ${N} hello from ${S}", &args(&[]), "#ch", "me", "srv");
    assert_eq!(result, "/msg me hello from srv");
}

#[test]
fn alias_range_args() {
    let result = expand_alias_template("/msg $0 $1-", &args(&["nick", "hello", "world"]), "", "", "");
    assert_eq!(result, "/msg nick hello world");
}

#[test]
fn alias_missing_positional_replaced_empty() {
    let result = expand_alias_template("/msg $0 $1", &args(&["nick"]), "", "", "");
    assert_eq!(result, "/msg nick");
}

#[test]
fn alias_chaining_template() {
    let result = expand_alias_template("/join $0; /msg $0 hello", &args(&["#test"]), "", "", "");
    assert_eq!(result, "/join #test; /msg #test hello");
}

#[test]
fn alias_empty_args_star() {
    let result = expand_alias_template("/who $C", &args(&[]), "#general", "me", "srv");
    assert_eq!(result, "/who #general");
}

#[test]
fn alias_dollar_t_same_as_c() {
    let result = expand_alias_template("/topic $T", &args(&[]), "#rust", "", "");
    assert_eq!(result, "/topic #rust");
}

#[test]
fn alias_range_args_out_of_bounds_returns_empty() {
    let result = expand_alias_template("/msg $0 $3-", &args(&["nick", "hello"]), "", "", "");
    assert_eq!(result, "/msg nick");
}

#[test]
fn alias_range_args_at_boundary() {
    let result = expand_alias_template("/msg $0 $2-", &args(&["nick", "hello"]), "", "", "");
    assert_eq!(result, "/msg nick");
}

#[test]
fn a_chain_is_cut_at_its_semicolons() {
    assert_eq!(split_chain("/join #a; /msg #a hi"), vec!["/join #a", "/msg #a hi"]);
}

#[test]
fn a_line_with_a_slash_is_a_command() {
    let parsed = parse_command("/JOIN #rust key").unwrap();
    assert_eq!(parsed.name, "join");
    assert_eq!(parsed.args, vec!["#rust", "key"]);
    assert!(parse_command("hello").is_none());
}

// Keys as a terminal takes them.

const PLAIN: Mods = Mods { shift: false, control: false, alt: false, other: false };
const CONTROL: Mods = Mods { shift: false, control: true, alt: false, other: false };
const ALT: Mods = Mods { shift: false, control: false, alt: true, other: false };
const ALT_CONTROL: Mods = Mods { shift: false, control: true, alt: true, other: false };

fn make_key(code: KeyCode, mods: Mods) -> KeyEvent {
    KeyEvent { code, mods }
}

#[test]
fn key_to_bytes_char() {
    assert_eq!(key_event_to_bytes(&make_key(KeyCode::Char('a'), PLAIN), false), b"a");
}

#[test]
fn key_to_bytes_enter() {
    assert_eq!(key_event_to_bytes(&make_key(KeyCode::Enter, PLAIN), false), b"\r");
}

#[test]
fn key_to_bytes_backspace() {
    assert_eq!(key_event_to_bytes(&make_key(KeyCode::Backspace, PLAIN), false), vec![0x7f]);
}

#[test]
fn key_to_bytes_ctrl_c() {
    assert_eq!(key_event_to_bytes(&make_key(KeyCode::Char('c'), CONTROL), false), vec![0x03]);
}

#[test]
fn key_to_bytes_ctrl_d() {
    assert_eq!(key_event_to_bytes(&make_key(KeyCode::Char('d'), CONTROL), false), vec![0x04]);
}

#[test]
fn key_to_bytes_arrow_up() {
    assert_eq!(key_event_to_bytes(&make_key(KeyCode::Up, PLAIN), false), vec![0x1b, b'[', b'A']);
}

#[test]
fn key_to_bytes_arrow_down() {
    assert_eq!(key_event_to_bytes(&make_key(KeyCode::Down, PLAIN), false), vec![0x1b, b'[', b'B']);
}

#[test]
fn key_to_bytes_tab() {
    assert_eq!(key_event_to_bytes(&make_key(KeyCode::Tab, PLAIN), false), b"\t");
}

#[test]
fn key_to_bytes_esc() {
    assert_eq!(key_event_to_bytes(&make_key(KeyCode::Esc, PLAIN), false), vec![0x1b]);
}

#[test]
fn key_to_bytes_f1() {
    assert_eq!(key_event_to_bytes(&make_key(KeyCode::F(1), PLAIN), false), vec![0x1b, b'O', b'P']);
}

#[test]
fn key_to_bytes_f5() {
    assert_eq!(
        key_event_to_bytes(&make_key(KeyCode::F(5), PLAIN), false),
        vec![0x1b, b'[', b'1', b'5', b'~']
    );
}

#[test]
fn key_to_bytes_page_up() {
    assert_eq!(
        key_event_to_bytes(&make_key(KeyCode::PageUp, PLAIN), false),
        vec![0x1b, b'[', b'5', b'~']
    );
}

#[test]
fn key_to_bytes_home() {
    assert_eq!(key_event_to_bytes(&make_key(KeyCode::Home, PLAIN), false), vec![0x1b, b'[', b'H']);
}

#[test]
fn key_to_bytes_arrow_up_app_cursor_mode() {
    assert_eq!(key_event_to_bytes(&make_key(KeyCode::Up, PLAIN), true), vec![0x1b, b'O', b'A']);
}

#[test]
fn key_to_bytes_home_app_cursor_mode() {
    assert_eq!(key_event_to_bytes(&make_key(KeyCode::Home, PLAIN), true), vec![0x1b, b'O', b'H']);
}

#[test]
fn key_to_bytes_alt_char() {
    assert_eq!(key_event_to_bytes(&make_key(KeyCode::Char('x'), ALT), false), vec![0x1b, b'x']);
}

#[test]
fn key_to_bytes_alt_ctrl_c() {
    assert_eq!(
        key_event_to_bytes(&make_key(KeyCode::Char('c'), ALT_CONTROL), false),
        vec![0x1b, 0x03]
    );
}

#[test]
fn a_wide_character_goes_out_as_utf8() {
    assert_eq!(
        key_event_to_bytes(&make_key(KeyCode::Char('é'), PLAIN), false),
        "é".as_bytes().to_vec()
    );
    assert_eq!(
        key_event_to_bytes(&make_key(KeyCode::Char('😀'), PLAIN), false),
        "😀".as_bytes().to_vec()
    );
}

// Keys in the chat.

fn app() -> App {
    App::new(Config {
        nick: "me".to_string(),
        username: "me".to_string(),
        servers: StrMap::new(),
        aliases: StrMap::new(),
        typing: TypingConfig { send_channels: true, send_queries: true },
        shrink_enabled: false,
        shrink_outgoing: false,
        spellcheck_enabled: false,
    })
}

fn clock() -> Clock {
    Clock { mono_ms: 10_000, utc_ms: 1_700_000_000_000 }
}

#[test]
fn plain_keys_edit_the_line() {
    let mut app = app();
    assert_eq!(
        app.handle_key(make_key(KeyCode::Char('a'), PLAIN), 0),
        KeyAction::Insert { c: 'a', check: false }
    );
    assert_eq!(app.handle_key(make_key(KeyCode::Enter, PLAIN), 0), KeyAction::Submit);
    assert_eq!(app.handle_key(make_key(KeyCode::Backspace, PLAIN), 0), KeyAction::Backspace);
    assert_eq!(app.handle_key(make_key(KeyCode::Char('u'), CONTROL), 0), KeyAction::ClearToStart);
}

#[test]
fn escape_waits_for_its_second_key() {
    let mut app = app();
    assert_eq!(app.handle_key(make_key(KeyCode::Esc, PLAIN), 1_000), KeyAction::AwaitChord);
    assert!(app.consume_esc_prefix(1_000 + ESC_TIMEOUT_MS - 1));
    assert!(!app.consume_esc_prefix(1_000));
    assert_eq!(app.handle_key(make_key(KeyCode::Esc, PLAIN), 5_000), KeyAction::AwaitChord);
    assert!(!app.consume_esc_prefix(5_000 + ESC_TIMEOUT_MS + 1));
}

#[test]
fn the_wizard_takes_all_keys() {
    let mut app = app();
    app.overlays.wizard = true;
    assert_eq!(app.handle_key(make_key(KeyCode::Char('a'), PLAIN), 0), KeyAction::Wizard);
    assert_eq!(handle_wizard_key(make_key(KeyCode::Enter, PLAIN), Focus::Save), WizardKey::Save);
    assert_eq!(handle_wizard_key(make_key(KeyCode::Esc, PLAIN), Focus::Text), WizardKey::Close);
}

#[test]
fn numbers_switch_buffers() {
    let mut app = app();
    app.state.add_buffer(Buffer::named("net", BufferType::Channel, "#a"));
    app.state.add_buffer(Buffer::named("net", BufferType::Channel, "#b"));
    let ids = app.state.numbered_buffer_ids();
    app.switch_to_buffer_num(2);
    assert_eq!(app.state.active_buffer_id, Some(ids[1].clone()));
    app.switch_to_buffer_num(99);
    assert_eq!(app.state.active_buffer_id, Some(ids[1].clone()));
}

// Pasting.

#[test]
fn a_single_line_is_inserted() {
    let mut app = app();
    match app.handle_paste("hello there", None, None) {
        PasteAction::Insert(text) => assert_eq!(text, "hello there"),
        other => panic!("unexpected {other:?}"),
    }
}

#[test]
fn pasted_lines_are_queued_up_to_a_limit() {
    let mut app = app();
    let mut text = String::new();
    for i in 0..(MAX_PASTE_LINES + 20) {
        text.push_str(&format!("line {i}\n"));
    }
    match app.handle_paste(&text, None, None) {
        PasteAction::Submit(first) => assert_eq!(first, "line 0"),
        other => panic!("unexpected {other:?}"),
    }
    assert!(app.paste_queue.len() <= MAX_PASTE_LINES);
    assert_eq!(app.drain_paste_queue(), Some("line 1".to_string()));
}

// The mouse.

fn click(column: u16, row: u16) -> MouseEvent {
    MouseEvent { kind: MouseKind::Down(MouseButton::Left), column, row }
}

#[test]
fn clicks_go_to_what_they_hit() {
    let mut app = app();
    assert_eq!(app.handle_mouse(click(1, 1)), MouseAction::Ignore);
    app.regions = Some(Regions {
        chat: Some(Rect { x: 20, y: 0, width: 40, height: 20 }),
        buffer_list: Some(Rect { x: 0, y: 0, width: 20, height: 20 }),
        nick_list: None,
    });
    assert_eq!(app.handle_mouse(click(3, 4)), MouseAction::BufferList(4));
    assert_eq!(app.handle_mouse(click(30, 7)), MouseAction::Chat(7));
    assert_eq!(app.handle_mouse(click(70, 7)), MouseAction::Ignore);
}

#[test]
fn the_shell_gets_positions_from_one() {
    let area = Some(Rect { x: 10, y: 5, width: 80, height: 24 });
    assert_eq!(forward_mouse_to_shell(click(10, 5), area, true), Some("\x1b[<0;1;1M".to_string()));
    assert_eq!(forward_mouse_to_shell(click(12, 8), area, true), Some("\x1b[<0;3;4M".to_string()));
    assert_eq!(forward_mouse_to_shell(click(10, 5), None, true), None);
    assert_eq!(forward_mouse_to_shell(click(10, 5), area, false), None);
}

#[test]
fn lists_scroll_no_further_than_their_end() {
    let (start, _) = resolve_scroll(100, 20, 500);
    assert_eq!(start, 80);
    let (start, _) = resolve_scroll(10, 20, 5);
    assert_eq!(start, 0);
}

#[test]
fn a_click_on_a_nick_opens_a_query() {
    let mut app = app();
    let mut channel = Buffer::named("net", BufferType::Channel, "#a");
    channel.users.insert(
        "bob".to_string(),
        NickEntry { nick: "Bob".to_string(), ident: None, host: None, prefix: String::new() },
    );
    app.state.add_buffer(channel);
    app.state.set_active_buffer("net/#a");
    app.handle_nick_list_click(1, &vec!["Bob".to_string()]);
    assert_eq!(app.state.active_buffer_id, Some("net/bob".to_string()));
}

// Overlays.

#[test]
fn the_wizard_finds_what_was_clicked() {
    let rects = WizardRects {
        save: Some(Rect { x: 0, y: 10, width: 6, height: 1 }),
        cancel: Some(Rect { x: 8, y: 10, width: 8, height: 1 }),
        tabs: vec![(1, Rect { x: 0, y: 0, width: 5, height: 1 })],
        fields: vec![(2, Rect { x: 0, y: 2, width: 20, height: 1 })],
    };
    assert_eq!(handle_wizard_click(&rects, 1, 10), WizardHit::Save);
    assert_eq!(handle_wizard_click(&rects, 9, 10), WizardHit::Cancel);
    assert_eq!(handle_wizard_click(&rects, 2, 0), WizardHit::Tab(1));
    assert_eq!(handle_wizard_click(&rects, 19, 2), WizardHit::Field(2));
    assert_eq!(handle_wizard_click(&rects, 30, 30), WizardHit::Nothing);
}

fn server(label: &str) -> ServerConfig {
    ServerConfig {
        label: label.to_string(),
        address: "irc.test.net".to_string(),
        port: 6697,
        tls: true,
        channels: vec![],
        nick: None,
        username: None,
        password: None,
        sasl_user: None,
        sasl_pass: None,
        sasl_mechanism: None,
        client_cert_path: None,
        sasl_key_path: None,
        autosendcmd: None,
        auto_reconnect: None,
        reconnect_delay: None,
        reconnect_max_retries: None,
        bouncer_network_id: None,
        bouncer_control: false,
    }
}

#[test]
fn the_wizard_closes_only_when_the_server_was_saved() {
    let mut app = app();
    assert!(!app.open_server_wizard(Some("nowhere"), clock()));
    assert!(app.open_server_wizard(None, clock()));
    let shown = app.wizard_save(Err("no address".to_string()), Ok(()), clock());
    assert_eq!(shown, Some("no address".to_string()));
    assert!(app.overlays.wizard);
    let built = Ok(("net".to_string(), server("Net")));
    let shown = app.wizard_save(built, Err("disk full".to_string()), clock());
    assert_eq!(shown, Some("Save failed: disk full".to_string()));
    assert!(app.overlays.wizard);
    let built = Ok(("net".to_string(), server("Net")));
    assert_eq!(app.wizard_save(built, Ok(()), clock()), None);
    assert!(!app.overlays.wizard);
    assert!(app.config.servers.contains("net"));
    assert!(app.open_server_wizard(Some("net"), clock()));
}

#[test]
fn the_picker_moves_and_chooses() {
    let mut picker = Picker { filter: String::new(), selected: 0, cols: 3 };
    let _ = picker.handle_key(make_key(KeyCode::Right, PLAIN), 5);
    assert_eq!(picker.selected, 1);
    let _ = picker.handle_key(make_key(KeyCode::Down, PLAIN), 5);
    assert_eq!(picker.selected, 4);
    let outcome = picker.handle_key(make_key(KeyCode::Enter, PLAIN), 5);
    assert_eq!(outcome.insert, Some(4));
    assert!(outcome.close);
}

#[test]
fn an_emote_is_inserted_at_the_cursor() {
    let (value, cursor) = insert_emote("hi there", 2, "wave");
    assert!(value.starts_with("hi"));
    assert!(value.contains("wave"));
    assert!(value.ends_with("there"));
    assert!(cursor > 2);
    let (value, cursor) = insert_emote("hi there", 2, "?");
    assert_eq!(value, "hi there");
    assert_eq!(cursor, 2);
}

fn checked(word: &str, known: bool) -> CheckedWord {
    CheckedWord {
        raw_start: 0,
        strip_start: 0,
        strip_end: word.len(),
        word: word.to_string(),
        known,
        suggestions: vec!["hello".to_string()],
    }
}

#[test]
fn only_unknown_words_are_corrected() {
    let found = check_spelling_after_separator(true, false, Some(checked("helo", false)), false).unwrap();
    assert_eq!(found.original, "helo");
    assert_eq!(found.suggestions, vec!["hello"]);
    assert!(check_spelling_after_separator(true, false, Some(checked("hello", true)), false).is_none());
    assert!(check_spelling_after_separator(true, true, Some(checked("helo", false)), false).is_none());
    assert!(check_spelling_after_separator(false, false, Some(checked("helo", false)), false).is_none());
}

#[test]
fn commands_and_aliases_complete_in_order() {
    let builtin = args(&["join", "part"]);
    let aliases = args(&["kick", "J"]);
    let all = completion_commands(&builtin, &aliases);
    assert!(all.contains(&"join".to_string()));
    assert!(all.contains(&"kick".to_string()));
    let mut sorted = all.clone();
    sorted.sort();
    assert_eq!(all, sorted);
}

#[test]
fn dictionaries_report_where_they_can() {
    let mut app = app();
    app.state.add_buffer(Buffer::named("net", BufferType::Channel, "#a"));
    app.state.set_active_buffer("net/#a");
    let loaded = Checker { dictionaries: 1, computing: false };
    let entry = DictEntry { code: "en_US".to_string(), name: "English".to_string(), installed: true };
    app.handle_dict_event(DictEvent::List(vec![entry]), loaded, clock());
    app.handle_dict_event(DictEvent::Error("no network".to_string()), loaded, clock());
    let messages = &app.state.buffers.get("net/#a").unwrap().messages;
    assert!(messages.iter().any(|m| m.text.contains("en_US")));
    assert!(messages.iter().any(|m| m.text.contains("no network")));
}

#[test]
fn reloading_the_spellchecker_follows_the_configuration() {
    let mut app = app();
    app.overlays.spell = Spell::Highlight;
    app.spellchecker = Some(Checker { dictionaries: 2, computing: false });
    app.reload_spellchecker(Checker { dictionaries: 1, computing: false });
    assert_eq!(app.overlays.spell, Spell::Highlight);
    assert_eq!(app.spellchecker, None);
    app.config.spellcheck_enabled = true;
    app.reload_spellchecker(Checker { dictionaries: 1, computing: false });
    assert_eq!(app.spellchecker, Some(Checker { dictionaries: 1, computing: false }));
}
