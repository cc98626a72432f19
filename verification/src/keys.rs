//! Keys: what they do, and how a shell is told of them.
use vstd::prelude::*;

use crate::app::{App, Spell};
use crate::state::{
    activated, buffer_id_seq, buffers_are_numbered_in_order, make_buffer_id, numbered, AppState,
    BufferType, DEFAULT_CONN_ID,
};
use crate::text::{chars_of, lower_ascii, lower_char, opt_text, texts, trim_start, trim_start_seq};

verus! {

broadcast use vstd::string::group_string_axioms;

/// Which key was pressed.
#[derive(Clone, Copy, Debug, PartialEq, Eq, Structural)]
pub enum KeyCode {
    Char(char),
    Enter,
    Backspace,
    Tab,
    BackTab,
    Esc,
    Up,
    Down,
    Left,
    Right,
    Home,
    End,
    PageUp,
    PageDown,
    Insert,
    Delete,
    F(u8),
    Other,
}

/// The modifiers held with a key.
#[derive(Clone, Copy, Debug, PartialEq, Eq, Structural)]
pub struct Mods {
    pub shift: bool,
    pub control: bool,
    pub alt: bool,
    /// Any of the rarer modifiers.
    pub other: bool,
}

/// A key with its modifiers.
#[derive(Clone, Copy, Debug, PartialEq, Eq, Structural)]
pub struct KeyEvent {
    pub code: KeyCode,
    pub mods: Mods,
}

/// The size of a character cell in pixels, from the size of the window.
pub fn font_size_from_window_px(columns: u16, rows: u16, width_px: u16, height_px: u16) -> (r: Option<
    (u16, u16),
>)
    ensures
        r == (if columns == 0 || rows == 0 || width_px == 0 || height_px == 0 {
            None
        } else {
            Some((width_px / columns, height_px / rows))
        }),
{
    if columns == 0 || rows == 0 || width_px == 0 || height_px == 0 {
        return None;
    }
    Some((width_px / columns, height_px / rows))
}

/// The UTF-8 bytes of a character.
pub open spec fn utf8(c: char) -> Seq<u8> {
    let n = c as nat;
    if n < 0x80 {
        seq![n as u8]
    } else if n < 0x800 {
        seq![(0xc0 + n / 64) as u8, (0x80 + n % 64) as u8]
    } else if n < 0x1_0000 {
        seq![(0xe0 + n / 4096) as u8, (0x80 + (n / 64) % 64) as u8, (0x80 + n % 64) as u8]
    } else {
        seq![
            (0xf0 + n / 262_144) as u8,
            (0x80 + (n / 4096) % 64) as u8,
            (0x80 + (n / 64) % 64) as u8,
            (0x80 + n % 64) as u8,
        ]
    }
}

/// The control byte of a character: 1 to 26 for the letters.
pub open spec fn control_byte(c: char) -> u8 {
    ((lower_char(c) as nat % 256 + 160) % 256) as u8
}

/// The bytes of a function key.
pub open spec fn function_bytes(n: u8) -> Seq<u8> {
    if n == 1 {
        seq![0x1bu8, 79u8, 80u8]
    } else if n == 2 {
        seq![0x1bu8, 79u8, 81u8]
    } else if n == 3 {
        seq![0x1bu8, 79u8, 82u8]
    } else if n == 4 {
        seq![0x1bu8, 79u8, 83u8]
    } else if n == 5 {
        seq![0x1bu8, 91u8, 49u8, 53u8, 126u8]
    } else if n == 6 {
        seq![0x1bu8, 91u8, 49u8, 55u8, 126u8]
    } else if n == 7 {
        seq![0x1bu8, 91u8, 49u8, 56u8, 126u8]
    } else if n == 8 {
        seq![0x1bu8, 91u8, 49u8, 57u8, 126u8]
    } else if n == 9 {
        seq![0x1bu8, 91u8, 50u8, 48u8, 126u8]
    } else if n == 10 {
        seq![0x1bu8, 91u8, 50u8, 49u8, 126u8]
    } else if n == 11 {
        seq![0x1bu8, 91u8, 50u8, 51u8, 126u8]
    } else if n == 12 {
        seq![0x1bu8, 91u8, 50u8, 52u8, 126u8]
    } else {
        Seq::empty()
    }
}

/// What a terminal program is sent for a key. With `app_cursor` the cursor keys use the SS3 prefix
/// in place of CSI.
pub open spec fn key_bytes(key: KeyEvent, app_cursor: bool) -> Seq<u8> {
    let escape = if key.mods.alt {
        seq![0x1bu8]
    } else {
        Seq::empty()
    };
    let cursor = seq![0x1bu8, if app_cursor { 79u8 } else { 91u8 }];
    match key.code {
        KeyCode::Char(c) => if key.mods.control {
            escape.push(control_byte(c))
        } else {
            escape + utf8(c)
        },
        KeyCode::Enter => seq![13u8],
        KeyCode::Backspace => seq![0x7fu8],
        KeyCode::Tab => seq![9u8],
        KeyCode::BackTab => seq![0x1bu8, 91u8, 90u8],
        KeyCode::Esc => seq![0x1bu8],
        KeyCode::Up => cursor.push(65u8),
        KeyCode::Down => cursor.push(66u8),
        KeyCode::Right => cursor.push(67u8),
        KeyCode::Left => cursor.push(68u8),
        KeyCode::Home => cursor.push(72u8),
        KeyCode::End => cursor.push(70u8),
        KeyCode::PageUp => seq![0x1bu8, 91u8, 53u8, 126u8],
        KeyCode::PageDown => seq![0x1bu8, 91u8, 54u8, 126u8],
        KeyCode::Insert => seq![0x1bu8, 91u8, 50u8, 126u8],
        KeyCode::Delete => seq![0x1bu8, 91u8, 51u8, 126u8],
        KeyCode::F(n) => function_bytes(n),
        KeyCode::Other => Seq::empty(),
    }
}

/// Puts the UTF-8 bytes of a character at the end of `out`.
fn push_utf8(out: &mut Vec<u8>, c: char)
    ensures
        final(out)@ == old(out)@ + utf8(c),
{
    let ghost was = out@;
    let n: u32 = c as u32;
    if n < 0x80 {
        out.push(n as u8);
    } else if n < 0x800 {
        out.push((0xc0 + n / 64) as u8);
        out.push((0x80 + n % 64) as u8);
    } else if n < 0x1_0000 {
        out.push((0xe0 + n / 4096) as u8);
        out.push((0x80 + (n / 64) % 64) as u8);
        out.push((0x80 + n % 64) as u8);
    } else {
        out.push((0xf0 + n / 262_144) as u8);
        out.push((0x80 + (n / 4096) % 64) as u8);
        out.push((0x80 + (n / 64) % 64) as u8);
        out.push((0x80 + n % 64) as u8);
    }
    assert(out@ =~= was + utf8(c));
}

/// What a terminal program is sent for a key.
pub fn key_event_to_bytes(key: &KeyEvent, app_cursor: bool) -> (r: Vec<u8>)
    ensures
        r@ == key_bytes(*key, app_cursor),
{
    let mut r: Vec<u8> = Vec::new();
    let prefix: u8 = if app_cursor {
        79
    } else {
        91
    };
    match key.code {
        KeyCode::Char(c) => {
            if key.mods.alt {
                r.push(0x1b);
            }
            if key.mods.control {
                let n: u32 = lower_ascii(c) as u32;
                r.push(((n % 256 + 160) % 256) as u8);
            } else {
                push_utf8(&mut r, c);
            }
        },
        KeyCode::Enter => r.push(13),
        KeyCode::Backspace => r.push(0x7f),
        KeyCode::Tab => r.push(9),
        KeyCode::BackTab => push3(&mut r, 0x1b, 91, 90),
        KeyCode::Esc => r.push(0x1b),
        KeyCode::Up => push3(&mut r, 0x1b, prefix, 65),
        KeyCode::Down => push3(&mut r, 0x1b, prefix, 66),
        KeyCode::Right => push3(&mut r, 0x1b, prefix, 67),
        KeyCode::Left => push3(&mut r, 0x1b, prefix, 68),
        KeyCode::Home => push3(&mut r, 0x1b, prefix, 72),
        KeyCode::End => push3(&mut r, 0x1b, prefix, 70),
        KeyCode::PageUp => {
            push3(&mut r, 0x1b, 91, 53);
            r.push(126);
        },
        KeyCode::PageDown => {
            push3(&mut r, 0x1b, 91, 54);
            r.push(126);
        },
        KeyCode::Insert => {
            push3(&mut r, 0x1b, 91, 50);
            r.push(126);
        },
        KeyCode::Delete => {
            push3(&mut r, 0x1b, 91, 51);
            r.push(126);
        },
        KeyCode::F(n) => {
            if 1 <= n && n <= 4 {
                push3(&mut r, 0x1b, 79, 79 + n);
            } else if 5 <= n && n <= 12 {
                let (tens, units): (u8, u8) = if n == 5 {
                    (49, 53)
                } else if n <= 8 {
                    (49, 49 + n)
                } else if n <= 10 {
                    (50, 39 + n)
                } else {
                    (50, 40 + n)
                };
                push3(&mut r, 0x1b, 91, tens);
                r.push(units);
                r.push(126);
            }
        },
        KeyCode::Other => {},
    }
    assert(r@ =~= key_bytes(*key, app_cursor));
    r
}

fn push3(out: &mut Vec<u8>, a: u8, b: u8, c: u8)
    ensures
        final(out)@ == old(out)@ + seq![a, b, c],
{
    let ghost was = out@;
    out.push(a);
    out.push(b);
    out.push(c);
    assert(out@ =~= was + seq![a, b, c]);
}

/// How soon a key must follow Escape to count as a chord with it.
pub const ESC_TIMEOUT_MS: u64 = 500;

/// What a key does.
#[derive(Clone, Copy, Debug, PartialEq, Eq, Structural)]
pub enum KeyAction {
    /// Nothing.
    Ignore,
    /// Leaves shell input.
    LeaveShell,
    /// Goes to the shell.
    Forward,
    /// Goes to the wizard.
    Wizard,
    /// Goes to the emote picker.
    Picker,
    /// Goes to a buffer by its number.
    Number(usize),
    /// Goes a buffer back or ahead; then the shell input follows the buffer, if so asked.
    Step { forward: bool, update_shell: bool },
    DismissSpell,
    DismissPreview,
    /// Waits for the other half of a chord.
    AwaitChord,
    Quit,
    OpenPicker,
    Redraw,
    ClearToStart,
    ClearToEnd,
    DeleteWordBack,
    Home,
    MoveLeft,
    MoveRight,
    End,
    InsertNewline,
    Submit,
    Backspace,
    Delete,
    HistoryUp,
    HistoryDown,
    PageUp,
    PageDown,
    /// Completes the word; a marked word loses its mark first.
    Complete,
    CycleSpell,
    /// Types a character; behind a separator the word before it is checked.
    Insert { c: char, check: bool },
    /// Takes the suggestion, with a space behind it if there is none.
    AcceptWithSpace { insert: bool },
    /// Takes the suggestion and puts punctuation in place of the separator behind it.
    AcceptWithPunctuation(char),
    /// Takes the suggestion and goes on typing.
    AcceptAndInsert(char),
}

/// No modifier.
pub open spec fn no_mods(m: Mods) -> bool {
    !m.shift && !m.control && !m.alt && !m.other
}

/// Only Control.
pub open spec fn only_control(m: Mods) -> bool {
    !m.shift && m.control && !m.alt && !m.other
}

/// Only Alt.
pub open spec fn only_alt(m: Mods) -> bool {
    !m.shift && !m.control && m.alt && !m.other
}

/// Nothing, or only Shift.
pub open spec fn typing_mods(m: Mods) -> bool {
    !m.control && !m.alt && !m.other
}

/// A decimal digit.
pub open spec fn digit(c: char) -> bool {
    '0' <= c <= '9'
}

/// An ASCII punctuation character.
pub open spec fn punctuation(c: char) -> bool {
    ||| '!' <= c <= '/'
    ||| ':' <= c <= '@'
    ||| '[' <= c <= '`'
    ||| '{' <= c <= '~'
}

/// A character behind which the word before it is checked.
pub open spec fn separates(c: char) -> bool {
    c == ' ' || (punctuation(c) && c != '/')
}

/// A command is being typed.
pub open spec fn typing_command(input: Seq<char>) -> bool {
    trim_start_seq(input).len() > 0 && trim_start_seq(input)[0] == '/'
}

/// What typing a character does.
pub open spec fn char_action(c: char, spell: Spell) -> KeyAction {
    match spell {
        Spell::Replace { space_follows } => if c == ' ' {
            KeyAction::AcceptWithSpace { insert: !space_follows }
        } else if c == '.' || c == ',' || c == '!' || c == '?' || c == ';' || c == ':' {
            KeyAction::AcceptWithPunctuation(c)
        } else {
            KeyAction::AcceptAndInsert(c)
        },
        _ => KeyAction::Insert { c, check: separates(c) },
    }
}

/// What a control chord does.
pub open spec fn control_action(c: char) -> Option<KeyAction> {
    if c == 'q' || c == 'c' {
        Some(KeyAction::Quit)
    } else if c == 'g' {
        Some(KeyAction::OpenPicker)
    } else if c == 'l' {
        Some(KeyAction::Redraw)
    } else if c == 'u' {
        Some(KeyAction::ClearToStart)
    } else if c == 'k' {
        Some(KeyAction::ClearToEnd)
    } else if c == 'w' {
        Some(KeyAction::DeleteWordBack)
    } else if c == 'a' {
        Some(KeyAction::Home)
    } else if c == 'b' {
        Some(KeyAction::MoveLeft)
    } else if c == 'e' {
        Some(KeyAction::End)
    } else {
        None
    }
}

impl App {
    /// A key follows Escape soon enough.
    pub open spec fn chord(&self, now: u64) -> bool {
        self.last_esc matches Some(t) && (now < t || now - t < ESC_TIMEOUT_MS)
    }

    /// What a key does while a shell takes the input.
    pub open spec fn shell_key(&self, key: KeyEvent) -> KeyAction {
        if only_control(key.mods) && key.code == KeyCode::Char(']') {
            KeyAction::LeaveShell
        } else if key.mods.alt && key.code == KeyCode::Left {
            KeyAction::Step { forward: false, update_shell: true }
        } else if key.mods.alt && key.code == KeyCode::Right {
            KeyAction::Step { forward: true, update_shell: true }
        } else {
            match key.code {
                KeyCode::Char(c) if key.mods.alt && digit(c) => KeyAction::Number(
                    (c as nat - 48) as usize,
                ),
                _ => KeyAction::Forward,
            }
        }
    }

    /// What a key does in the chat, apart from chords with Escape.
    pub open spec fn chat_key(&self, key: KeyEvent) -> KeyAction {
        match key.code {
            KeyCode::Esc => if self.overlays.spell != Spell::Off {
                KeyAction::DismissSpell
            } else if self.overlays.preview {
                KeyAction::DismissPreview
            } else {
                KeyAction::AwaitChord
            },
            KeyCode::Home => KeyAction::Home,
            KeyCode::End => KeyAction::End,
            KeyCode::Left => if key.mods.alt {
                KeyAction::Step { forward: false, update_shell: false }
            } else {
                KeyAction::MoveLeft
            },
            KeyCode::Right => if key.mods.alt {
                KeyAction::Step { forward: true, update_shell: false }
            } else {
                KeyAction::MoveRight
            },
            KeyCode::Enter => if key.mods.alt && !typing_command(self.input@) {
                KeyAction::InsertNewline
            } else {
                KeyAction::Submit
            },
            KeyCode::Backspace => KeyAction::Backspace,
            KeyCode::Delete => KeyAction::Delete,
            KeyCode::Up => KeyAction::HistoryUp,
            KeyCode::Down => KeyAction::HistoryDown,
            KeyCode::PageUp => KeyAction::PageUp,
            KeyCode::PageDown => KeyAction::PageDown,
            KeyCode::Tab => match self.overlays.spell {
                Spell::Replace { .. } => KeyAction::CycleSpell,
                _ => KeyAction::Complete,
            },
            KeyCode::Char(c) => if only_control(key.mods) && control_action(c) is Some {
                control_action(c)->0
            } else if only_alt(key.mods) && digit(c) {
                KeyAction::Number((c as nat - 48) as usize)
            } else if c == '\n' || c == '\r' {
                KeyAction::Submit
            } else if typing_mods(key.mods) {
                if (c == 'q' || c == 'Q') && self.log_browser_mode && self.input@.len() == 0 {
                    KeyAction::Quit
                } else {
                    char_action(c, self.overlays.spell)
                }
            } else {
                KeyAction::Ignore
            },
            _ => KeyAction::Ignore,
        }
    }

    /// What a key does.
    pub open spec fn key_action(&self, key: KeyEvent, now: u64) -> KeyAction {
        if self.shell_input_active {
            self.shell_key(key)
        } else if self.overlays.wizard {
            KeyAction::Wizard
        } else if self.overlays.picker {
            KeyAction::Picker
        } else if self.chord(now) && no_mods(key.mods) && key.code == KeyCode::Left {
            KeyAction::Step { forward: false, update_shell: false }
        } else if self.chord(now) && no_mods(key.mods) && key.code == KeyCode::Right {
            KeyAction::Step { forward: true, update_shell: false }
        } else {
            match key.code {
                KeyCode::Char(c) if self.chord(now) && no_mods(key.mods) && digit(c) =>
                    KeyAction::Number((c as nat - 48) as usize),
                _ => self.chat_key(key),
            }
        }
    }

    /// When Escape counts as pressed after a key.
    pub open spec fn esc_after(&self, action: KeyAction, now: u64) -> Option<u64> {
        if self.shell_input_active || self.overlays.wizard || self.overlays.picker {
            self.last_esc
        } else if action == KeyAction::AwaitChord {
            Some(now)
        } else {
            None
        }
    }

    /// The buffer that a number stands for: the placeholder's status for 0, else the numbered
    /// buffers from 1.
    pub open spec fn numbered_target(&self, n: usize) -> Option<Seq<char>> {
        if n == 0 {
            let id = buffer_id_seq(DEFAULT_CONN_ID@, "Status"@);
            if self.state.buffers@.contains_key(id) {
                Some(id)
            } else {
                None
            }
        } else {
            let ids = numbered(self.state, self.state.buffers.keys());
            if n - 1 < ids.len() {
                Some(ids[n - 1])
            } else {
                None
            }
        }
    }

    fn decide_char(&self, c: char, mods: Mods) -> (r: KeyAction)
        ensures
            r == self.chat_key(KeyEvent { code: KeyCode::Char(c), mods }),
    {
        let control = mods.control && !mods.shift && !mods.alt && !mods.other;
        let alt = mods.alt && !mods.shift && !mods.control && !mods.other;
        if control {
            match c {
                'q' | 'c' => {
                    return KeyAction::Quit;
                },
                'g' => {
                    return KeyAction::OpenPicker;
                },
                'l' => {
                    return KeyAction::Redraw;
                },
                'u' => {
                    return KeyAction::ClearToStart;
                },
                'k' => {
                    return KeyAction::ClearToEnd;
                },
                'w' => {
                    return KeyAction::DeleteWordBack;
                },
                'a' => {
                    return KeyAction::Home;
                },
                'b' => {
                    return KeyAction::MoveLeft;
                },
                'e' => {
                    return KeyAction::End;
                },
                _ => {},
            }
        }
        if alt && '0' <= c && c <= '9' {
            return KeyAction::Number((c as usize) - 48);
        }
        if c == '\n' || c == '\r' {
            return KeyAction::Submit;
        }
        if mods.control || mods.alt || mods.other {
            return KeyAction::Ignore;
        }
        if (c == 'q' || c == 'Q') && self.log_browser_mode && self.input.as_str().is_empty() {
            return KeyAction::Quit;
        }
        match self.overlays.spell {
            Spell::Replace { space_follows } => if c == ' ' {
                KeyAction::AcceptWithSpace { insert: !space_follows }
            } else if c == '.' || c == ',' || c == '!' || c == '?' || c == ';' || c == ':' {
                KeyAction::AcceptWithPunctuation(c)
            } else {
                KeyAction::AcceptAndInsert(c)
            },
            _ => {
                let punctuation = ('!' <= c && c <= '/') || (':' <= c && c <= '@') || ('[' <= c && c <= '`')
                    || ('{' <= c && c <= '~');
                KeyAction::Insert { c, check: c == ' ' || (punctuation && c != '/') }
            },
        }
    }

    fn decide_chat(&self, key: KeyEvent) -> (r: KeyAction)
        ensures
            r == self.chat_key(key),
    {
        match key.code {
            KeyCode::Esc => if self.overlays.spell != Spell::Off {
                KeyAction::DismissSpell
            } else if self.overlays.preview {
                KeyAction::DismissPreview
            } else {
                KeyAction::AwaitChord
            },
            KeyCode::Home => KeyAction::Home,
            KeyCode::End => KeyAction::End,
            KeyCode::Left => if key.mods.alt {
                KeyAction::Step { forward: false, update_shell: false }
            } else {
                KeyAction::MoveLeft
            },
            KeyCode::Right => if key.mods.alt {
                KeyAction::Step { forward: true, update_shell: false }
            } else {
                KeyAction::MoveRight
            },
            KeyCode::Enter => if key.mods.alt && !is_command(self.input.as_str()) {
                KeyAction::InsertNewline
            } else {
                KeyAction::Submit
            },
            KeyCode::Backspace => KeyAction::Backspace,
            KeyCode::Delete => KeyAction::Delete,
            KeyCode::Up => KeyAction::HistoryUp,
            KeyCode::Down => KeyAction::HistoryDown,
            KeyCode::PageUp => KeyAction::PageUp,
            KeyCode::PageDown => KeyAction::PageDown,
            KeyCode::Tab => match self.overlays.spell {
                Spell::Replace { .. } => KeyAction::CycleSpell,
                _ => KeyAction::Complete,
            },
            KeyCode::Char(c) => self.decide_char(c, key.mods),
            _ => KeyAction::Ignore,
        }
    }

    /// Tells whether a key follows Escape soon enough, which it can do once.
    pub fn consume_esc_prefix(&mut self, now: u64) -> (r: bool)
        ensures
            r == old(self).chord(now),
            *final(self) == (App { last_esc: None, ..*old(self) }),
    {
        let r = match self.last_esc {
            Some(t) => now < t || now - t < ESC_TIMEOUT_MS,
            None => false,
        };
        self.last_esc = None;
        r
    }

    /// Goes to a buffer by its number.
    pub fn switch_to_buffer_num(&mut self, n: usize)
        ensures
            switched(*old(self), *final(self), old(self).numbered_target(n), true),
    {
        let ghost before = *self;
        let target = if n == 0 {
            let id = make_buffer_id(DEFAULT_CONN_ID, "Status");
            if self.state.buffers.contains(id.as_str()) {
                Some(id)
            } else {
                None
            }
        } else {
            let ids = self.state.numbered_buffer_ids();
            assert(texts(ids@).len() == ids@.len());
            if n - 1 < ids.len() {
                proof {
                    crate::keys::lemma_numbered_exist(self.state, self.state.buffers.keys());
                    assert(texts(ids@)[n - 1] == ids@[n - 1]@);
                }
                let len: usize = self.state.buffers.len();
                Some(ids[n - 1].clone())
            } else {
                None
            }
        };
        match target {
            Some(id) => {
                self.state.set_active_buffer(id.as_str());
                self.scroll_offset = 0;
                self.reset_sidepanel_scrolls();
            },
            None => {},
        }
        self.update_shell_input_state();
    }

    /// The side panels start at their tops again.
    pub fn reset_sidepanel_scrolls(&mut self)
        ensures
            *final(self) == (App { buffer_list_scroll: 0, nick_list_scroll: 0, ..*old(self) }),
    {
        self.buffer_list_scroll = 0;
        self.nick_list_scroll = 0;
    }

    /// Handles a key: changes what the application keeps, and tells what is left for the input line
    /// and the screen to do.
    pub fn handle_key(&mut self, key: KeyEvent, now: u64) -> (r: KeyAction)
        ensures
            r == old(self).key_action(key, now),
            key_applied(*old(self), *final(self), r, old(self).esc_after(r, now)),
    {
        if self.shell_input_active {
            if key.mods.control && !key.mods.shift && !key.mods.alt && !key.mods.other && key.code
                == KeyCode::Char(']') {
                self.shell_input_active = false;
                return KeyAction::LeaveShell;
            }
            if key.mods.alt {
                match key.code {
                    KeyCode::Char(c) => {
                        if '0' <= c && c <= '9' {
                            let n: usize = (c as usize) - 48;
                            self.switch_to_buffer_num(n);
                            return KeyAction::Number(n);
                        }
                    },
                    KeyCode::Left => {
                        self.go_step(false, true);
                        return KeyAction::Step { forward: false, update_shell: true };
                    },
                    KeyCode::Right => {
                        self.go_step(true, true);
                        return KeyAction::Step { forward: true, update_shell: true };
                    },
                    _ => {},
                }
            }
            return KeyAction::Forward;
        }
        if self.overlays.wizard {
            return KeyAction::Wizard;
        }
        if self.overlays.picker {
            return KeyAction::Picker;
        }
        let chord = self.consume_esc_prefix(now);
        let plain = !key.mods.shift && !key.mods.control && !key.mods.alt && !key.mods.other;
        if chord && plain {
            match key.code {
                KeyCode::Char(c) => {
                    if '0' <= c && c <= '9' {
                        let n: usize = (c as usize) - 48;
                        self.switch_to_buffer_num(n);
                        return KeyAction::Number(n);
                    }
                },
                KeyCode::Left => {
                    self.go_step(false, false);
                    return KeyAction::Step { forward: false, update_shell: false };
                },
                KeyCode::Right => {
                    self.go_step(true, false);
                    return KeyAction::Step { forward: true, update_shell: false };
                },
                _ => {},
            }
        }
        let action = self.decide_chat(key);
        match action {
            KeyAction::AwaitChord => {
                self.last_esc = Some(now);
            },
            KeyAction::Quit => {
                self.should_quit = true;
            },
            KeyAction::End => {
                self.scroll_offset = 0;
            },
            KeyAction::Number(n) => {
                self.switch_to_buffer_num(n);
            },
            KeyAction::Step { forward, update_shell } => {
                self.go_step(forward, update_shell);
            },
            KeyAction::PageUp => {
                self.scroll_offset = self.scroll_offset.saturating_add(10);
            },
            KeyAction::PageDown => {
                self.scroll_offset = self.scroll_offset.saturating_sub(10);
            },
            _ => {},
        }
        action
    }

    /// Goes a buffer back or ahead.
    fn go_step(&mut self, forward: bool, update_shell: bool)
        ensures
            stepped(*old(self), *final(self), forward, update_shell),
    {
        self.state.step_buffer(forward);
        self.scroll_offset = 0;
        self.reset_sidepanel_scrolls();
        if update_shell {
            self.update_shell_input_state();
        }
    }
}

/// Whether a shell buffer is active.
pub open spec fn in_shell(state: AppState) -> bool {
    state.active() matches Some(b) && b.buffer_type == BufferType::Shell
}

/// The view moved to a buffer, where there is one to move to.
pub open spec fn switched(before: App, after: App, target: Option<Seq<char>>, update_shell: bool) -> bool {
    match target {
        Some(id) => {
            &&& activated(before.state, after.state, id)
            &&& after == (App {
                state: after.state,
                scroll_offset: 0,
                buffer_list_scroll: 0,
                nick_list_scroll: 0,
                shell_input_active: if update_shell {
                    in_shell(after.state)
                } else {
                    before.shell_input_active
                },
                ..before
            })
        },
        None => after == (App {
            shell_input_active: if update_shell {
                in_shell(before.state)
            } else {
                before.shell_input_active
            },
            ..before
        }),
    }
}

/// The view moved a buffer back or ahead; the scroll positions start anew even where there is no
/// other buffer.
pub open spec fn stepped(before: App, after: App, forward: bool, update_shell: bool) -> bool {
    &&& match before.state.neighbour(forward) {
        Some(id) => activated(before.state, after.state, id),
        None => after.state == before.state,
    }
    &&& after == (App {
        state: after.state,
        scroll_offset: 0,
        buffer_list_scroll: 0,
        nick_list_scroll: 0,
        shell_input_active: if update_shell {
            in_shell(after.state)
        } else {
            before.shell_input_active
        },
        ..before
    })
}

/// What the application keeps changed as a key's action asks.
pub open spec fn key_applied(before: App, after: App, action: KeyAction, esc: Option<u64>) -> bool {
    let base = App { last_esc: esc, ..before };
    match action {
        KeyAction::LeaveShell => after == (App { shell_input_active: false, ..base }),
        KeyAction::Number(n) => switched(base, after, base.numbered_target(n), true),
        KeyAction::Step { forward, update_shell } => stepped(base, after, forward, update_shell),
        KeyAction::Quit => after == (App { should_quit: true, ..base }),
        KeyAction::End => after == (App { scroll_offset: 0, ..base }),
        KeyAction::PageUp => after == (App {
            scroll_offset: if before.scroll_offset > usize::MAX - 10 {
                usize::MAX
            } else {
                (before.scroll_offset + 10) as usize
            },
            ..base
        }),
        KeyAction::PageDown => after == (App {
            scroll_offset: if before.scroll_offset < 10 {
                0
            } else {
                (before.scroll_offset - 10) as usize
            },
            ..base
        }),
        _ => after == base,
    }
}

/// Whether a command is being typed.
pub fn is_command(input: &str) -> (r: bool)
    ensures
        r == typing_command(input@),
{
    let t = trim_start(input);
    let v = chars_of(t.as_str());
    v.len() > 0 && v[0] == '/'
}

/// Numbered buffers are among the buffers.
pub proof fn lemma_numbered_exist(state: AppState, ids: Seq<Seq<char>>)
    ensures
        forall|i: int|
            0 <= i < numbered(state, ids).len() ==> ids.contains(#[trigger] numbered(state, ids)[i]),
    decreases ids.len(),
{
    if ids.len() > 0 {
        lemma_numbered_exist(state, ids.drop_last());
        assert forall|i: int| 0 <= i < numbered(state, ids).len() implies ids.contains(
            #[trigger] numbered(state, ids)[i],
        ) by {
            let init = numbered(state, ids.drop_last());
            if i < init.len() {
                let x = init[i];
                assert(ids.drop_last().contains(x));
                let k = ids.drop_last().index_of(x);
                assert(ids[k] == x);
            } else {
                assert(ids[ids.len() - 1] == ids.last());
            }
        }
    }
}

/// The character that one to four bytes of UTF-8 stand for.
pub open spec fn read_utf8(b: Seq<u8>) -> int {
    if b.len() == 1 {
        b[0] as int
    } else if b.len() == 2 {
        (b[0] - 0xc0) * 64 + (b[1] - 0x80)
    } else if b.len() == 3 {
        (b[0] - 0xe0) * 4096 + (b[1] - 0x80) * 64 + (b[2] - 0x80)
    } else {
        (b[0] - 0xf0) * 262_144 + (b[1] - 0x80) * 4096 + (b[2] - 0x80) * 64 + (b[3] - 0x80)
    }
}

/// A shell gets the characters that are typed: without modifiers the bytes of a character are read as that
/// character, and with Alt an escape comes before them.
pub proof fn shells_get_what_is_typed(c: char, alt: bool, shift: bool, app_cursor: bool)
    ensures
        ({
            let mods = Mods { shift, control: false, alt, other: false };
            let b = key_bytes(KeyEvent { code: KeyCode::Char(c), mods }, app_cursor);
            let own = if alt {
                b.skip(1)
            } else {
                b
            };
            &&& read_utf8(own) == c as int
            &&& 1 <= own.len() <= 4
            &&& alt ==> b[0] == 0x1b
        }),
{
    let mods = Mods { shift, control: false, alt, other: false };
    let b = key_bytes(KeyEvent { code: KeyCode::Char(c), mods }, app_cursor);
    let own = utf8(c);
    if alt {
        assert(b == seq![0x1bu8] + own);
        assert(b.skip(1) =~= own);
    } else {
        assert(b =~= own);
    }
    let n = c as nat;
    assert(n < 0x11_0000);
    if n < 0x80 {
    } else if n < 0x800 {
        assert(n / 64 < 32 && n == (n / 64) * 64 + n % 64);
    } else if n < 0x1_0000 {
        assert(n / 4096 < 16 && n / 64 == (n / 4096) * 64 + (n / 64) % 64 && n == (n / 64) * 64 + n % 64);
    } else {
        assert(n / 262_144 < 8 && n / 4096 == (n / 262_144) * 64 + (n / 4096) % 64 && n / 64 == (n / 4096) * 64
            + (n / 64) % 64 && n == (n / 64) * 64 + n % 64);
    }
}

/// What is typed goes into the input line. With nothing open over the chat and no correction offered, every
/// character without modifiers or with Shift alone is inserted as it is, and Enter submits; a digit right after
/// Escape goes to the buffer of that number, and so does one with Alt.
pub proof fn characters_are_inserted(app: App, c: char, shift: bool, now: u64)
    requires
        !app.shell_input_active,
        !app.overlays.wizard,
        !app.overlays.picker,
        app.overlays.spell == Spell::Off,
        !app.log_browser_mode,
        c != '\n' && c != '\r',
    ensures
        ({
            let plain = Mods { shift, control: false, alt: false, other: false };
            let alt = Mods { shift: false, control: false, alt: true, other: false };
            let waits = app.last_esc is Some && now < app.last_esc->0 + 500;
            let number = '0' <= c <= '9';
            let typed = app.key_action(KeyEvent { code: KeyCode::Char(c), mods: plain }, now);
            &&& waits && number && !shift ==> typed == KeyAction::Number((c as nat - 48) as usize)
            &&& !(waits && number && !shift) ==> typed is Insert && typed->c == c
            &&& number ==> app.key_action(KeyEvent { code: KeyCode::Char(c), mods: alt }, now) == KeyAction::Number(
                (c as nat - 48) as usize,
            )
            &&& app.key_action(KeyEvent { code: KeyCode::Enter, mods: plain }, now) == KeyAction::Submit
        }),
{
}

/// A number goes to the buffer at that place, counted from one over the buffers of connections in the order in
/// which they were opened.
pub proof fn numbers_go_by_place(app: App, n: usize)
    requires
        n > 0,
    ensures
        ({
            let own = app.state.buffers.keys().filter(
                |id: Seq<char>| app.state.buffers@[id].connection_id@ != DEFAULT_CONN_ID@,
            );
            app.numbered_target(n) == (if n <= own.len() {
                Some(own[n - 1])
            } else {
                None
            })
        }),
{
    buffers_are_numbered_in_order(app.state, app.state.buffers.keys());
}

/// A number goes where it points: the buffer of that place is shown from its end, the one before it is
/// remembered, and what was unread in it is read; no other buffer changes.
pub proof fn numbers_show_their_buffer(before: App, after: App, n: usize, esc: Option<u64>, other: Seq<char>)
    requires
        key_applied(before, after, KeyAction::Number(n), esc),
        n > 0,
        before.state.buffers.ordered(),
    ensures
        ({
            let own = before.state.buffers.keys().filter(
                |id: Seq<char>| before.state.buffers@[id].connection_id@ != DEFAULT_CONN_ID@,
            );
            if n <= own.len() {
                &&& opt_text(after.state.active_buffer_id) == Some(own[n - 1])
                &&& after.state.buffers@[own[n - 1]].unread_count == 0
                &&& after.scroll_offset == 0
                &&& other != own[n - 1] && before.state.buffers@.contains_key(other)
                    ==> after.state.buffers@.contains_key(other) && after.state.buffers@[other]
                    == before.state.buffers@[other]
            } else {
                after.state == before.state && after.scroll_offset == before.scroll_offset
            }
        }),
{
    numbers_go_by_place(App { last_esc: esc, ..before }, n);
}

/// A page up and a page down again end where they began.
pub proof fn pages_up_and_down(before: App, up: App, down: App, esc: Option<u64>)
    requires
        key_applied(before, up, KeyAction::PageUp, esc),
        key_applied(up, down, KeyAction::PageDown, esc),
        before.scroll_offset <= usize::MAX - 10,
    ensures
        up.scroll_offset > before.scroll_offset,
        down.scroll_offset == before.scroll_offset,
        down.state == before.state,
{
}

} // verus!
