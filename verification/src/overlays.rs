//! The overlays of the chat: the wizard, the emote picker, spelling and completion.
use vstd::prelude::*;

use crate::app::{App, Checker, Clock, Config, Overlays, Rect};
use crate::e2e_gate::{C_ERR, C_RST};
use crate::irc::{networks_refreshed, refresh_e2e_configured_networks};
use crate::keys::{KeyCode, KeyEvent};
use crate::mouse::inside_opt;
use crate::paste::{control, is_control};
use crate::state::{event_shown, events_shown, AppState, NickEntry, ServerConfig};
use crate::text::{
    ascending, chars_of, concat, concat3, decimal, decimal_seq, insert_ordered, opt_text, slice_text, texts,
};

verus! {

broadcast use vstd::string::group_string_axioms;

/// What has the focus in the wizard.
#[derive(Clone, Copy, Debug, PartialEq, Eq, Structural)]
pub enum Focus {
    Save,
    Cancel,
    Text,
    Toggle,
    Select,
}

/// What a key does in the wizard.
#[derive(Clone, Copy, Debug, PartialEq, Eq, Structural)]
pub enum WizardKey {
    Ignore,
    /// Quits the client and closes the wizard.
    Quit,
    Close,
    Save,
    FocusNext,
    FocusPrev,
    /// Goes to the next or the previous choice.
    Cycle(bool),
    /// Goes to the next or the previous page.
    Page(bool),
    Toggle,
    Backspace,
    Insert(char),
}

/// What a key does in the wizard.
pub open spec fn wizard_key(key: KeyEvent, focus: Focus) -> WizardKey {
    let only_control = key.mods.control && !key.mods.shift && !key.mods.alt && !key.mods.other;
    if only_control && (key.code == KeyCode::Char('q') || key.code == KeyCode::Char('c')) {
        WizardKey::Quit
    } else {
        match key.code {
            KeyCode::Esc => WizardKey::Close,
            KeyCode::Enter => match focus {
                Focus::Save => WizardKey::Save,
                Focus::Cancel => WizardKey::Close,
                _ => WizardKey::FocusNext,
            },
            KeyCode::Tab => WizardKey::FocusNext,
            KeyCode::Down => WizardKey::FocusNext,
            KeyCode::BackTab => WizardKey::FocusPrev,
            KeyCode::Up => WizardKey::FocusPrev,
            KeyCode::Left => if focus == Focus::Select {
                WizardKey::Cycle(false)
            } else {
                WizardKey::Page(false)
            },
            KeyCode::Right => if focus == Focus::Select {
                WizardKey::Cycle(true)
            } else {
                WizardKey::Page(true)
            },
            KeyCode::Backspace => WizardKey::Backspace,
            KeyCode::Char(c) => if c == ' ' && focus == Focus::Toggle {
                WizardKey::Toggle
            } else if !key.mods.control && !key.mods.alt && focus == Focus::Text {
                WizardKey::Insert(c)
            } else {
                WizardKey::Ignore
            },
            _ => WizardKey::Ignore,
        }
    }
}

/// What a click hits in the wizard.
#[derive(Clone, Copy, Debug, PartialEq, Eq, Structural)]
pub enum WizardHit {
    Save,
    Cancel,
    Tab(usize),
    Field(usize),
    Nothing,
}

/// Where the parts of the wizard are.
#[derive(Debug)]
pub struct WizardRects {
    pub save: Option<Rect>,
    pub cancel: Option<Rect>,
    pub tabs: Vec<(usize, Rect)>,
    pub fields: Vec<(usize, Rect)>,
}

/// The label of the first area that holds a position.
pub open spec fn first_hit(areas: Seq<(usize, Rect)>, column: u16, row: u16) -> Option<usize>
    decreases areas.len(),
{
    if areas.len() == 0 {
        None
    } else {
        match first_hit(areas.drop_last(), column, row) {
            Some(n) => Some(n),
            None => if inside_opt(Some(areas.last().1), column, row) {
                Some(areas.last().0)
            } else {
                None
            },
        }
    }
}

/// What a click hits in the wizard.
pub open spec fn wizard_hit(rects: WizardRects, column: u16, row: u16) -> WizardHit {
    if inside_opt(rects.save, column, row) {
        WizardHit::Save
    } else if inside_opt(rects.cancel, column, row) {
        WizardHit::Cancel
    } else {
        match (first_hit(rects.tabs@, column, row), first_hit(rects.fields@, column, row)) {
            (Some(page), _) => WizardHit::Tab(page),
            (None, Some(field)) => WizardHit::Field(field),
            (None, None) => WizardHit::Nothing,
        }
    }
}

fn holds_point(r: Option<Rect>, column: u16, row: u16) -> (b: bool)
    ensures
        b == inside_opt(r, column, row),
{
    match r {
        None => false,
        Some(r) => {
            let right: u16 = r.x.saturating_add(r.width);
            let bottom: u16 = r.y.saturating_add(r.height);
            r.x <= column && column < right && r.y <= row && row < bottom
        },
    }
}

proof fn lemma_first_hit(areas: Seq<(usize, Rect)>, column: u16, row: u16, k: int)
    requires
        0 <= k <= areas.len(),
        first_hit(areas.take(k), column, row) is Some,
    ensures
        first_hit(areas, column, row) == first_hit(areas.take(k), column, row),
    decreases areas.len() - k,
{
    if k == areas.len() {
        assert(areas.take(k) =~= areas);
    } else {
        assert(areas.take(k + 1).drop_last() =~= areas.take(k));
        lemma_first_hit(areas, column, row, k + 1);
    }
}

/// The label of the first area that holds a position.
pub fn find_hit(areas: &Vec<(usize, Rect)>, column: u16, row: u16) -> (r: Option<usize>)
    ensures
        r == first_hit(areas@, column, row),
{
    let mut i: usize = 0;
    assert(areas@.take(0) =~= Seq::<(usize, Rect)>::empty());
    while i < areas.len()
        invariant
            i <= areas@.len(),
            first_hit(areas@.take(i as int), column, row) is None,
        decreases areas@.len() - i,
    {
        proof {
            assert(areas@.take(i + 1).drop_last() =~= areas@.take(i as int));
            assert(areas@.take(i + 1).last() == areas@[i as int]);
        }
        if holds_point(Some(areas[i].1), column, row) {
            proof {
                lemma_first_hit(areas@, column, row, i + 1);
            }
            return Some(areas[i].0);
        }
        i = i + 1;
    }
    assert(areas@.take(areas@.len() as int) =~= areas@);
    None
}

/// What a click hits in the wizard.
pub fn handle_wizard_click(rects: &WizardRects, column: u16, row: u16) -> (r: WizardHit)
    ensures
        r == wizard_hit(*rects, column, row),
{
    if holds_point(rects.save, column, row) {
        return WizardHit::Save;
    }
    if holds_point(rects.cancel, column, row) {
        return WizardHit::Cancel;
    }
    match find_hit(&rects.tabs, column, row) {
        Some(page) => WizardHit::Tab(page),
        None => match find_hit(&rects.fields, column, row) {
            Some(field) => WizardHit::Field(field),
            None => WizardHit::Nothing,
        },
    }
}

/// The emote picker while it is open.
#[derive(Debug)]
pub struct Picker {
    pub filter: String,
    pub selected: usize,
    pub cols: usize,
}

/// What is left to do after a key in the emote picker.
#[derive(Clone, Copy, Debug, PartialEq, Eq, Structural)]
pub struct PickerOutcome {
    /// The position, among the emotes shown, of the one to insert.
    pub insert: Option<usize>,
    pub close: bool,
    pub quit: bool,
}

/// The last position among `len`.
pub open spec fn last_of(len: usize) -> usize {
    if len > 0 {
        (len - 1) as usize
    } else {
        0
    }
}

/// The smaller of two numbers.
pub open spec fn least(a: int, b: int) -> int {
    if a < b {
        a
    } else {
        b
    }
}

/// The selection after a key, among `len` emotes in rows of `cols`.
pub open spec fn picked(code: KeyCode, selected: usize, cols: usize, len: usize) -> usize {
    let width = if cols > 1 {
        cols
    } else {
        1
    };
    match code {
        KeyCode::Left => if selected > 0 {
            (selected - 1) as usize
        } else {
            0
        },
        KeyCode::Right => least(selected + 1, last_of(len) as int) as usize,
        KeyCode::Up => if selected > width {
            (selected - width) as usize
        } else {
            0
        },
        KeyCode::Down => least(selected + width, last_of(len) as int) as usize,
        KeyCode::Home => 0,
        KeyCode::End => last_of(len),
        _ => selected,
    }
}

/// A key that closes the client even over the picker.
pub open spec fn quits(key: KeyEvent) -> bool {
    key.mods.control && !key.mods.shift && !key.mods.alt && !key.mods.other && (key.code
        == KeyCode::Char('q') || key.code == KeyCode::Char('c'))
}

/// A key that extends the picker's filter.
pub open spec fn filters(key: KeyEvent) -> Option<char> {
    match key.code {
        KeyCode::Char(c) if !key.mods.control && !key.mods.alt && !control(c) => Some(c),
        _ => None,
    }
}

impl Picker {
    /// Handles a key in the emote picker; `len` emotes pass the filter.
    pub fn handle_key(&mut self, key: KeyEvent, len: usize) -> (r: PickerOutcome)
        ensures
            final(self).cols == old(self).cols,
            r.quit == quits(key),
            r.close == (quits(key) || key.code == KeyCode::Esc || key.code == KeyCode::Enter),
            r.insert == (if !quits(key) && key.code == KeyCode::Enter && old(self).selected < len {
                Some(old(self).selected)
            } else {
                None
            }),
            final(self).filter@ == (if quits(key) {
                old(self).filter@
            } else if key.code == KeyCode::Backspace {
                if old(self).filter@.len() > 0 {
                    old(self).filter@.drop_last()
                } else {
                    old(self).filter@
                }
            } else {
                match filters(key) {
                    Some(c) => old(self).filter@.push(c),
                    None => old(self).filter@,
                }
            }),
            final(self).selected == (if quits(key) {
                old(self).selected
            } else if key.code == KeyCode::Backspace || filters(key) is Some {
                0
            } else {
                picked(key.code, old(self).selected, old(self).cols, len)
            }),
    {
        let mut r = PickerOutcome { insert: None, close: false, quit: false };
        if key.mods.control && !key.mods.shift && !key.mods.alt && !key.mods.other && (key.code
            == KeyCode::Char('q') || key.code == KeyCode::Char('c')) {
            r.quit = true;
            r.close = true;
            return r;
        }
        let last: usize = if len > 0 {
            len - 1
        } else {
            0
        };
        let width: usize = if self.cols > 1 {
            self.cols
        } else {
            1
        };
        match key.code {
            KeyCode::Esc => {
                r.close = true;
            },
            KeyCode::Enter => {
                if self.selected < len {
                    r.insert = Some(self.selected);
                }
                r.close = true;
            },
            KeyCode::Left => {
                self.selected = self.selected.saturating_sub(1);
            },
            KeyCode::Right => {
                let next: usize = self.selected.saturating_add(1);
                self.selected = if next < last {
                    next
                } else {
                    last
                };
            },
            KeyCode::Up => {
                self.selected = self.selected.saturating_sub(width);
            },
            KeyCode::Down => {
                let next: usize = self.selected.saturating_add(width);
                self.selected = if next < last {
                    next
                } else {
                    last
                };
            },
            KeyCode::Home => {
                self.selected = 0;
            },
            KeyCode::End => {
                self.selected = last;
            },
            KeyCode::Backspace => {
                let v = chars_of(self.filter.as_str());
                if v.len() > 0 {
                    self.filter = slice_text(&v, 0, v.len() - 1);
                    assert(self.filter@ =~= old(self).filter@.drop_last());
                }
                self.selected = 0;
            },
            KeyCode::Char(c) => {
                if !key.mods.control && !key.mods.alt && !is_control(c) {
                    self.filter.push(c);
                    self.selected = 0;
                }
            },
            _ => {},
        }
        r
    }
}

/// Handles a key in the wizard.
pub fn handle_wizard_key(key: KeyEvent, focus: Focus) -> (r: WizardKey)
    ensures
        r == wizard_key(key, focus),
{
    if key.mods.control && !key.mods.shift && !key.mods.alt && !key.mods.other && (key.code
        == KeyCode::Char('q') || key.code == KeyCode::Char('c')) {
        return WizardKey::Quit;
    }
    match key.code {
        KeyCode::Esc => WizardKey::Close,
        KeyCode::Enter => match focus {
            Focus::Save => WizardKey::Save,
            Focus::Cancel => WizardKey::Close,
            _ => WizardKey::FocusNext,
        },
        KeyCode::Tab | KeyCode::Down => WizardKey::FocusNext,
        KeyCode::BackTab | KeyCode::Up => WizardKey::FocusPrev,
        KeyCode::Left => if focus == Focus::Select {
            WizardKey::Cycle(false)
        } else {
            WizardKey::Page(false)
        },
        KeyCode::Right => if focus == Focus::Select {
            WizardKey::Cycle(true)
        } else {
            WizardKey::Page(true)
        },
        KeyCode::Backspace => WizardKey::Backspace,
        KeyCode::Char(c) => if c == ' ' && focus == Focus::Toggle {
            WizardKey::Toggle
        } else if !key.mods.control && !key.mods.alt && focus == Focus::Text {
            WizardKey::Insert(c)
        } else {
            WizardKey::Ignore
        },
        _ => WizardKey::Ignore,
    }
}

/// A correction that is offered for a word.
#[derive(Debug)]
pub struct SpellCorrection {
    /// Where the word begins and ends in the input line.
    pub start: usize,
    pub end: usize,
    pub original: String,
    pub suggestions: Vec<String>,
    pub highlight_only: bool,
}

/// What the checker said of the word before the cursor.
#[derive(Debug)]
pub struct CheckedWord {
    /// Where the word with its punctuation begins.
    pub raw_start: usize,
    /// Where the bare word begins and ends within it.
    pub strip_start: usize,
    pub strip_end: usize,
    /// The bare word.
    pub word: String,
    pub known: bool,
    pub suggestions: Vec<String>,
}

/// Whether a correction is offered for a checked word: only for an unknown word with suggestions,
/// never in a command.
pub open spec fn offers(checker: bool, command: bool, word: Option<CheckedWord>) -> bool {
    &&& checker
    &&& !command
    &&& word matches Some(w)
    &&& w.word@.len() > 0
    &&& !w.known
    &&& w.suggestions@.len() > 0
}

/// Offers a correction for the word before the cursor, where there is one to offer.
pub fn check_spelling_after_separator(
    checker: bool,
    command: bool,
    word: Option<CheckedWord>,
    highlight_only: bool,
) -> (r: Option<SpellCorrection>)
    requires
        word matches Some(w) ==> w.raw_start + w.strip_start <= usize::MAX && w.raw_start + w.strip_end
            <= usize::MAX,
    ensures
        match r {
            Some(c) => {
                &&& offers(checker, command, word)
                &&& c.start == word->0.raw_start + word->0.strip_start
                &&& c.end == word->0.raw_start + word->0.strip_end
                &&& c.original == word->0.word
                &&& c.suggestions == word->0.suggestions
                &&& c.highlight_only == highlight_only
            },
            None => !offers(checker, command, word),
        },
{
    if !checker || command {
        return None;
    }
    match word {
        None => None,
        Some(w) => {
            if w.word.as_str().is_empty() || w.known || w.suggestions.len() == 0 {
                return None;
            }
            Some(
                SpellCorrection {
                    start: w.raw_start + w.strip_start,
                    end: w.raw_start + w.strip_end,
                    original: w.word,
                    suggestions: w.suggestions,
                    highlight_only,
                },
            )
        },
    }
}

/// The names of the built-in commands and of the aliases, in order, each once.
pub fn completion_commands(builtin: &Vec<String>, aliases: &Vec<String>) -> (r: Vec<String>)
    ensures
        ascending(texts(r@)),
        forall|t: Seq<char>| #[trigger]
            texts(r@).contains(t) <==> texts(builtin@).contains(t) || texts(aliases@).contains(t),
{
    let mut r: Vec<String> = Vec::new();
    insert_all(&mut r, builtin);
    insert_all(&mut r, aliases);
    r
}

fn insert_all(list: &mut Vec<String>, more: &Vec<String>)
    requires
        ascending(texts(old(list)@)),
    ensures
        ascending(texts(final(list)@)),
        forall|t: Seq<char>| #[trigger]
            texts(final(list)@).contains(t) <==> texts(old(list)@).contains(t) || texts(more@).contains(t),
{
    let ghost before = texts(list@);
    let ghost all = texts(more@);
    let mut i: usize = 0;
    while i < more.len()
        invariant
            i <= more@.len(),
            all == texts(more@),
            ascending(texts(list@)),
            forall|t: Seq<char>| #[trigger]
                texts(list@).contains(t) <==> before.contains(t) || all.take(i as int).contains(t),
        decreases more@.len() - i,
    {
        insert_ordered(list, more[i].as_str());
        proof {
            let was = all.take(i as int);
            let now = all.take(i + 1);
            assert(now =~= was.push(all[i as int]));
            assert forall|t: Seq<char>| #[trigger] now.contains(t) <==> was.contains(t) || t
                == all[i as int] by {
                if was.contains(t) {
                    let k = was.index_of(t);
                    assert(now[k] == t);
                }
                if t == all[i as int] {
                    assert(now[i as int] == t);
                }
            }
        }
        i = i + 1;
    }
    assert(all.take(all.len() as int) =~= all);
}

/// A text in lower case by the rules of Unicode.
pub uninterp spec fn unicode_lower(s: Seq<char>) -> Seq<char>;

/// `str::to_lowercase`: the text in lower case by the rules of Unicode, independent of any locale.
#[verifier::external_body]
fn to_lowercase(s: &str) -> (r: String)
    ensures
        r@ == unicode_lower(s@),
{
    s.to_lowercase()
}

/// The speakers that are still in the channel, in order.
pub open spec fn present(speakers: Seq<Seq<char>>, users: Map<Seq<char>, NickEntry>) -> Seq<Seq<char>>
    decreases speakers.len(),
{
    if speakers.len() == 0 {
        Seq::empty()
    } else {
        let init = present(speakers.drop_last(), users);
        if users.contains_key(unicode_lower(speakers.last())) {
            init.push(speakers.last())
        } else {
            init
        }
    }
}

/// A dictionary that can be had.
#[derive(Debug)]
pub struct DictEntry {
    pub code: String,
    pub name: String,
    pub installed: bool,
}

/// What became of a request for dictionaries.
#[derive(Debug)]
pub enum DictEvent {
    List(Vec<DictEntry>),
    Downloaded(String),
    Error(String),
}

/// Opens the colour of a good result.
pub const C_OK: &'static str = "\u{3}03";

/// Opens the colour of a command.
pub const C_CMD: &'static str = "\u{3}10";

/// Opens the colour of a hint.
pub const C_DIM: &'static str = "\u{3}14";

/// `s` with spaces behind it up to a width.
pub open spec fn padded(s: Seq<char>, width: nat) -> Seq<char>
    decreases width - s.len(),
{
    if s.len() >= width {
        s
    } else {
        padded(s.push(' '), width)
    }
}

fn pad(s: &str, width: usize) -> (r: String)
    ensures
        r@ == padded(s@, width as nat),
{
    let mut r = s.to_string();
    let mut n: usize = chars_of(s).len();
    while n < width
        invariant
            r@.len() == n,
            padded(r@, width as nat) == padded(s@, width as nat),
        decreases width - n,
    {
        r.push(' ');
        n = n + 1;
    }
    r
}

/// One line of the list of dictionaries.
pub open spec fn dict_line(e: DictEntry) -> Seq<char> {
    "  "@ + C_CMD@ + padded(e.code@, 8) + C_RST@ + " "@ + e.name@ + (if e.installed {
        " "@ + C_OK@ + "[installed]"@ + C_RST@
    } else {
        Seq::empty()
    })
}

/// The lines that report on dictionaries.
pub open spec fn dict_lines(event: DictEvent, loaded: u64) -> Seq<Seq<char>> {
    match event {
        DictEvent::List(entries) => seq!["\u{2500}\u{2500} Available Dictionaries \u{2500}\u{2500}"@]
            + entries@.map_values(|e: DictEntry| dict_line(e)) + seq![
            "  "@ + C_DIM@ + "Use /spellcheck get <lang> to download"@ + C_RST@,
        ],
        DictEvent::Downloaded(lang) => seq![
            C_OK@ + "Dictionary "@ + lang@ + " downloaded successfully"@ + C_RST@,
            C_OK@ + "Spell checker reloaded ("@ + decimal_seq(loaded as nat) + " dictionaries)"@ + C_RST@,
        ],
        DictEvent::Error(message) => seq![C_ERR@ + message@ + C_RST@],
    }
}

/// A checker that knows anything.
pub open spec fn useful(c: Checker) -> bool {
    c.dictionaries > 0 || c.computing
}

/// A save of the wizard: the server is configured, and the keyring knows its network; the wizard closes
/// only where the configuration was written.
pub open spec fn wizard_saved(
    before: App,
    after: App,
    built: Result<(String, ServerConfig), String>,
    saved: Result<(), String>,
    now_ms: i64,
    r: Option<Seq<char>>,
) -> bool {
    if !before.overlays.wizard {
        after == before && r is None
    } else {
        match built {
            Err(message) => after == before && r == Some(message@),
            Ok(entry) => {
                &&& after == (App {
                    config: after.config,
                    state: after.state,
                    overlays: after.overlays,
                    ..before
                })
                &&& after.config == (Config { servers: after.config.servers, ..before.config })
                &&& after.config.servers@ == before.config.servers@.insert(entry.0@, entry.1)
                &&& match saved {
                    Err(e) => {
                        &&& r == Some("Save failed: "@ + e@)
                        &&& after.overlays == before.overlays
                        &&& networks_refreshed(after.config, before.state, after.state)
                    },
                    Ok(_) => {
                        &&& r is None
                        &&& after.overlays == (Overlays { wizard: false, ..before.overlays })
                        &&& exists|middle: AppState|
                            #[trigger] networks_refreshed(after.config, before.state, middle) && event_shown(
                                middle,
                                after.state,
                                "Server '"@ + entry.0@ + "' saved"@,
                                now_ms,
                            )
                    },
                }
            },
        }
    }
}

impl App {
    /// Takes over the dictionaries that could be loaded; without any there is no checker.
    pub fn init_spellchecker(&mut self, loaded: Checker)
        ensures
            *final(self) == (App {
                spellchecker: if useful(loaded) {
                    Some(loaded)
                } else {
                    None
                },
                ..*old(self)
            }),
    {
        if loaded.dictionaries > 0 || loaded.computing {
            self.spellchecker = Some(loaded);
        } else {
            self.spellchecker = None;
        }
    }

    /// Loads the spell checker anew, or lets it go where it is switched off. `loaded` is what could
    /// be loaded.
    pub fn reload_spellchecker(&mut self, loaded: Checker)
        ensures
            *final(self) == (App {
                spellchecker: if old(self).config.spellcheck_enabled && useful(loaded) {
                    Some(loaded)
                } else {
                    None
                },
                ..*old(self)
            }),
    {
        if self.config.spellcheck_enabled {
            self.init_spellchecker(loaded);
        } else {
            self.spellchecker = None;
        }
    }

    /// The nicks in the active buffer, and the speakers among them.
    pub fn completion_nicks(&self) -> (r: (Vec<String>, Vec<String>))
        ensures
            match self.state.active() {
                None => r.0@.len() == 0 && r.1@.len() == 0,
                Some(b) => {
                    &&& r.0@.len() == b.users.keys().len()
                    &&& forall|i: int|
                        0 <= i < r.0@.len() ==> (#[trigger] r.0@[i])@ == b.users@[b.users.keys()[i]].nick@
                    &&& texts(r.1@) == present(texts(b.last_speakers@), b.users@)
                },
            },
    {
        let mut nicks: Vec<String> = Vec::new();
        let mut speakers: Vec<String> = Vec::new();
        match self.state.active_buffer() {
            None => {},
            Some(b) => {
                let n: usize = b.users.len();
                let mut i: usize = 0;
                while i < n
                    invariant
                        n == b.users.keys().len(),
                        i <= n,
                        nicks@.len() == i,
                        forall|j: int|
                            0 <= j < i ==> (#[trigger] nicks@[j])@ == b.users@[b.users.keys()[j]].nick@,
                    decreases n - i,
                {
                    nicks.push(b.users.value_at(i).nick.clone());
                    i = i + 1;
                }
                let ghost all = texts(b.last_speakers@);
                let mut k: usize = 0;
                assert(all.take(0) =~= Seq::<Seq<char>>::empty());
                assert(texts(speakers@) =~= Seq::<Seq<char>>::empty());
                while k < b.last_speakers.len()
                    invariant
                        k <= b.last_speakers@.len(),
                        all == texts(b.last_speakers@),
                        texts(speakers@) == present(all.take(k as int), b.users@),
                    decreases b.last_speakers@.len() - k,
                {
                    assert(all.take(k + 1).drop_last() =~= all.take(k as int));
                    assert(all.take(k + 1).last() == b.last_speakers@[k as int]@);
                    let ghost was = texts(speakers@);
                    let name = to_lowercase(b.last_speakers[k].as_str());
                    if b.users.contains(name.as_str()) {
                        speakers.push(b.last_speakers[k].clone());
                        assert(texts(speakers@) =~= was.push(all[k as int]));
                    }
                    k = k + 1;
                }
                assert(all.take(all.len() as int) =~= all);
            },
        }
        (nicks, speakers)
    }

    /// Opens the wizard for a server, or for a new one; an unknown server is reported.
    pub fn open_server_wizard(&mut self, id: Option<&str>, now: Clock) -> (r: bool)
        ensures
            r == (id matches Some(id) ==> old(self).config.servers@.contains_key(id@)),
            if r {
                *final(self) == (App {
                    overlays: Overlays { wizard: true, ..old(self).overlays },
                    ..*old(self)
                })
            } else {
                &&& *final(self) == (App { state: final(self).state, ..*old(self) })
                &&& event_shown(
                    old(self).state,
                    final(self).state,
                    "No server with id '"@ + id->0@ + "'"@,
                    now.utc_ms,
                )
            },
    {
        match id {
            Some(id) => {
                if !self.config.servers.contains(id) {
                    let line = concat3("No server with id '", id, "'");
                    self.state.add_local_event(line, now.utc_ms);
                    return false;
                }
            },
            None => {},
        }
        self.overlays.wizard = true;
        true
    }

    /// Takes up a save of the wizard. `built` is the server that was filled in, or what is wrong with it;
    /// `saved` tells whether the configuration was written. The result is what the wizard shows then.
    pub fn wizard_save(
        &mut self,
        built: Result<(String, ServerConfig), String>,
        saved: Result<(), String>,
        now: Clock,
    ) -> (r: Option<String>)
        ensures
            wizard_saved(*old(self), *final(self), built, saved, now.utc_ms, opt_text(r)),
    {
        if !self.overlays.wizard {
            return None;
        }
        match built {
            Err(message) => Some(message),
            Ok((id, server)) => {
                self.config.servers.insert(id.clone(), server);
                refresh_e2e_configured_networks(&self.config, &mut self.state);
                match saved {
                    Err(e) => Some(concat("Save failed: ", e.as_str())),
                    Ok(()) => {
                        self.overlays.wizard = false;
                        let ghost middle = self.state;
                        self.state.add_local_event(concat3("Server '", id.as_str(), "' saved"), now.utc_ms);
                        assert(networks_refreshed(self.config, old(self).state, middle));
                        None
                    },
                }
            },
        }
    }

    /// Opens the emote picker where emotes can be typed.
    pub fn open_emote_picker(&mut self, enabled: bool)
        ensures
            *final(self) == (App {
                overlays: Overlays {
                    picker: old(self).overlays.picker || enabled,
                    ..old(self).overlays
                },
                ..*old(self)
            }),
    {
        if enabled {
            self.overlays.picker = true;
        }
    }

    /// After an event: the typing notifications follow a change of the draft or of the buffer. Tells
    /// whether there was one.
    pub fn note_change(&self, input_before: &str, buffer_before: &Option<String>) -> (r: bool)
        ensures
            r == (self.input@ != input_before@ || opt_text(self.state.active_buffer_id) != opt_text(
                *buffer_before,
            )),
    {
        if !crate::text::same(self.input.as_str(), input_before) {
            return true;
        }
        match (&self.state.active_buffer_id, buffer_before) {
            (Some(a), Some(b)) => !crate::text::same(a.as_str(), b.as_str()),
            (None, None) => false,
            _ => true,
        }
    }

    /// Reports on dictionaries; a downloaded one is taken into use. `loaded` is what can be loaded
    /// then.
    pub fn handle_dict_event(&mut self, event: DictEvent, loaded: Checker, now: Clock)
        ensures
            ({
                let reloaded = if event is Downloaded {
                    if old(self).config.spellcheck_enabled && useful(loaded) {
                        Some(loaded)
                    } else {
                        None
                    }
                } else {
                    old(self).spellchecker
                };
                let count = match reloaded {
                    Some(c) => c.dictionaries,
                    None => 0,
                };
                &&& *final(self) == (App {
                    state: final(self).state,
                    spellchecker: reloaded,
                    ..*old(self)
                })
                &&& events_shown(
                    old(self).state,
                    final(self).state,
                    dict_lines(event, count),
                    now.utc_ms,
                )
            }),
    {
        let mut lines: Vec<String> = Vec::new();
        match &event {
            DictEvent::List(entries) => {
                lines.push("\u{2500}\u{2500} Available Dictionaries \u{2500}\u{2500}".to_string());
                let ghost want = dict_lines(event, 0);
                let mut i: usize = 0;
                assert(texts(lines@) =~= want.take(1));
                while i < entries.len()
                    invariant
                        i <= entries@.len(),
                        event == DictEvent::List(*entries),
                        want == dict_lines(event, 0),
                        texts(lines@) == want.take(i + 1),
                    decreases entries@.len() - i,
                {
                    let ghost was = texts(lines@);
                    let e = &entries[i];
                    let mut line = concat3("  ", C_CMD, pad(e.code.as_str(), 8).as_str());
                    line.append(C_RST);
                    line.append(" ");
                    line.append(e.name.as_str());
                    if e.installed {
                        let mark = concat3(" ", C_OK, "[installed]");
                        line.append(mark.as_str());
                        line.append(C_RST);
                    }
                    proof {
                        assert(line@ =~= dict_line(*e));
                        assert(want[i + 1] == dict_line(entries@[i as int]));
                    }
                    let ghost l = line@;
                    lines.push(line);
                    assert(texts(lines@) =~= was.push(l));
                    assert(want.take(i + 2) =~= want.take(i + 1).push(want[i + 1]));
                    i = i + 1;
                }
                let ghost was = texts(lines@);
                let mut hint = concat3("  ", C_DIM, "Use /spellcheck get <lang> to download");
                hint.append(C_RST);
                let ghost h = hint@;
                lines.push(hint);
                assert(texts(lines@) =~= was.push(h));
                assert(texts(lines@) =~= want);
            },
            DictEvent::Downloaded(lang) => {
                let mut done = concat3(C_OK, "Dictionary ", lang.as_str());
                done.append(" downloaded successfully");
                done.append(C_RST);
                lines.push(done);
                self.reload_spellchecker(loaded);
                let count: u64 = match self.spellchecker {
                    Some(c) => c.dictionaries,
                    None => 0,
                };
                let mut reloaded = concat3(C_OK, "Spell checker reloaded (", decimal(count).as_str());
                reloaded.append(" dictionaries)");
                reloaded.append(C_RST);
                lines.push(reloaded);
                assert(texts(lines@) =~= dict_lines(event, count));
            },
            DictEvent::Error(message) => {
                lines.push(concat3(C_ERR, message.as_str(), C_RST));
                assert(texts(lines@) =~= dict_lines(event, 0));
            },
        }
        self.state.add_local_events(lines, now.utc_ms);
    }
}

/// The name of an emote that is not known.
pub const UNKNOWN_EMOTE: &'static str = "?";

/// Inserts `:name:` into the input line at the cursor, counted in characters; gives the line and the
/// cursor behind it. Nothing is inserted for an emote that is not known.
pub fn insert_emote(value: &str, cursor: usize, name: &str) -> (r: (String, usize))
    requires
        cursor <= value@.len(),
        value@.len() + name@.len() + 2 <= usize::MAX,
    ensures
        if name@ == UNKNOWN_EMOTE@ {
            r.0@ == value@ && r.1 == cursor
        } else {
            &&& r.0@ == value@.take(cursor as int) + seq![':'] + name@ + seq![':'] + value@.skip(
                cursor as int,
            )
            &&& r.1 == cursor + name@.len() + 2
        },
{
    if crate::text::same(name, UNKNOWN_EMOTE) {
        return (value.to_string(), cursor);
    }
    let v = chars_of(value);
    let n: usize = v.len();
    let mut s = slice_text(&v, 0, cursor);
    s.push(':');
    s.append(name);
    s.push(':');
    s.append(slice_text(&v, cursor, n).as_str());
    assert(s@ =~= value@.take(cursor as int) + seq![':'] + name@ + seq![':'] + value@.skip(cursor as int));
    let len: usize = chars_of(name).len();
    (s, cursor + len + 2)
}

/// The selection of the picker stays inside, and steps that stay inside are undone by the opposite ones.
pub proof fn the_selection_stays_inside(code: KeyCode, selected: usize, cols: usize, len: usize)
    requires
        selected < len,
    ensures
        picked(code, selected, cols, len) < len,
        selected + 1 < len ==> picked(KeyCode::Left, picked(KeyCode::Right, selected, cols, len), cols, len)
            == selected && picked(KeyCode::Right, selected, cols, len) == selected + 1,
        cols > 1 && selected > 0 && selected + cols < len ==> picked(
            KeyCode::Up,
            picked(KeyCode::Down, selected, cols, len),
            cols,
            len,
        ) == selected && picked(KeyCode::Down, selected, cols, len) == selected + cols,
        picked(KeyCode::Home, selected, cols, len) == 0,
        picked(KeyCode::End, selected, cols, len) == len - 1,
{
}

/// Nicks are completed in the order in which they spoke, and only those who are there.
pub proof fn those_present_are_completed(speakers: Seq<Seq<char>>, users: Map<Seq<char>, NickEntry>)
    ensures
        present(speakers, users) == speakers.filter(|s: Seq<char>| users.contains_key(unicode_lower(s))),
    decreases speakers.len(),
{
    reveal(Seq::filter);
    if speakers.len() > 0 {
        those_present_are_completed(speakers.drop_last(), users);
    } else {
        assert(present(speakers, users) =~= speakers.filter(
            |s: Seq<char>| users.contains_key(unicode_lower(s)),
        ));
    }
}

/// A click goes to the first area that holds it, and to none only where none holds it.
pub proof fn clicks_find_their_area(areas: Seq<(usize, Rect)>, column: u16, row: u16)
    ensures
        match first_hit(areas, column, row) {
            Some(n) => exists|i: int|
                0 <= i < areas.len() && areas[i].0 == n && inside_opt(Some(areas[i].1), column, row) && forall|
                    j: int,
                |
                    0 <= j < i ==> !inside_opt(Some((#[trigger] areas[j]).1), column, row),
            None => forall|j: int|
                0 <= j < areas.len() ==> !inside_opt(Some((#[trigger] areas[j]).1), column, row),
        },
    decreases areas.len(),
{
    if areas.len() > 0 {
        let rest = areas.drop_last();
        clicks_find_their_area(rest, column, row);
        match first_hit(rest, column, row) {
            Some(n) => {
                let i = choose|i: int|
                    0 <= i < rest.len() && rest[i].0 == n && inside_opt(Some(rest[i].1), column, row) && forall|
                        j: int,
                    |
                        0 <= j < i ==> !inside_opt(Some((#[trigger] rest[j]).1), column, row);
                assert(areas[i] == rest[i]);
                assert forall|j: int| 0 <= j < i implies !inside_opt(
                    Some((#[trigger] areas[j]).1),
                    column,
                    row,
                ) by {
                    assert(rest[j] == areas[j]);
                }
            },
            None => {
                assert forall|j: int| 0 <= j < areas.len() - 1 implies !inside_opt(
                    Some((#[trigger] areas[j]).1),
                    column,
                    row,
                ) by {
                    assert(rest[j] == areas[j]);
                }
                assert(areas[areas.len() - 1] == areas.last());
            },
        }
    }
}

/// A padded text begins with the text, goes on with spaces alone, and is at least as wide as it should be, and
/// no wider than it must.
pub proof fn padding_adds_spaces(s: Seq<char>, width: nat)
    ensures
        s.is_prefix_of(padded(s, width)),
        padded(s, width).len() == (if s.len() >= width {
            s.len()
        } else {
            width
        }),
        forall|i: int| s.len() <= i < padded(s, width).len() ==> #[trigger] padded(s, width)[i] == ' ',
    decreases width - s.len(),
{
    let p = padded(s, width);
    if s.len() < width {
        let more = s.push(' ');
        padding_adds_spaces(more, width);
        assert(p[s.len() as int] == ' ') by {
            assert(more == p.subrange(0, more.len() as int));
            assert(more[s.len() as int] == p.subrange(0, more.len() as int)[s.len() as int]);
        }
        assert(s =~= p.subrange(0, s.len() as int)) by {
            assert forall|i: int| 0 <= i < s.len() implies s[i] == p[i] by {
                assert(more[i] == p.subrange(0, more.len() as int)[i]);
            }
        }
    } else {
        assert(s =~= p.subrange(0, s.len() as int));
    }
}

} // verus!
