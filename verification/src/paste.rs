//! Pasted text.
use vstd::prelude::*;

use crate::app::App;
use crate::keys::{is_command, typing_command};
use crate::submit::{lemma_pieces_without, trim_cr};
use crate::text::{
    chars_of, concat, join, join_seq, lemma_pieces_unparted, pieces, slice_text, split, texts,
};
use crate::wire::{glued, lemma_glued_both, lemma_glued_one, lemma_glued_pieces};

verus! {

broadcast use vstd::string::group_string_axioms;

/// The most lines of a paste that are sent.
pub const MAX_PASTE_LINES: usize = 100;

/// What is left to do about a paste.
#[derive(Debug)]
pub enum PasteAction {
    /// The wizard's text field takes a line.
    Wizard(String),
    /// Nothing.
    Swallow,
    /// A shell takes the text, between the marks of a bracketed paste if it asked for them.
    Shell { bracketed: bool },
    /// The input line takes a text at the cursor.
    Insert(String),
    /// A text is submitted.
    Submit(String),
}

/// The model of a [`PasteAction`].
pub enum PasteActionV {
    Wizard(Seq<char>),
    Swallow,
    Shell(bool),
    Insert(Seq<char>),
    Submit(Seq<char>),
}

impl View for PasteAction {
    type V = PasteActionV;

    open spec fn view(&self) -> PasteActionV {
        match self {
            PasteAction::Wizard(line) => PasteActionV::Wizard(line@),
            PasteAction::Swallow => PasteActionV::Swallow,
            PasteAction::Shell { bracketed } => PasteActionV::Shell(*bracketed),
            PasteAction::Insert(text) => PasteActionV::Insert(text@),
            PasteAction::Submit(text) => PasteActionV::Submit(text@),
        }
    }
}

/// A control character.
pub open spec fn control(c: char) -> bool {
    (c as nat) < 0x20 || 0x7f <= (c as nat) < 0xa0
}

/// `s` without control characters.
pub open spec fn printable(s: Seq<char>) -> Seq<char>
    decreases s.len(),
{
    if s.len() == 0 {
        s
    } else if control(s.last()) {
        printable(s.drop_last())
    } else {
        printable(s.drop_last()).push(s.last())
    }
}

/// Every line without its trailing carriage returns.
pub open spec fn stripped(lines: Seq<Seq<char>>) -> Seq<Seq<char>> {
    lines.map_values(|l: Seq<char>| trim_cr(l))
}

/// The lines that are not empty.
pub open spec fn nonempty(lines: Seq<Seq<char>>) -> Seq<Seq<char>>
    decreases lines.len(),
{
    if lines.len() == 0 {
        lines
    } else if lines.last().len() == 0 {
        nonempty(lines.drop_last())
    } else {
        nonempty(lines.drop_last()).push(lines.last())
    }
}

/// The lines up to the last one that is not empty.
pub open spec fn without_blank_end(lines: Seq<Seq<char>>) -> Seq<Seq<char>>
    decreases lines.len(),
{
    if lines.len() > 0 && lines.last().len() == 0 {
        without_blank_end(lines.drop_last())
    } else {
        lines
    }
}

/// The number of lines of a text; a final newline does not begin another one.
pub open spec fn line_count(text: Seq<char>) -> nat {
    let lines = pieces(text, '\n');
    if lines.last().len() == 0 {
        (lines.len() - 1) as nat
    } else {
        lines.len()
    }
}

/// Some line is a command.
pub open spec fn has_command(lines: Seq<Seq<char>>) -> bool {
    exists|i: int| 0 <= i < lines.len() && typing_command(#[trigger] lines[i])
}

/// `list` cut off after `n` entries.
pub open spec fn capped(list: Seq<Seq<char>>, n: nat) -> Seq<Seq<char>> {
    if list.len() > n {
        list.take(n as int)
    } else {
        list
    }
}

impl App {
    /// A paste is sent as one message of several lines.
    pub open spec fn coalesces(&self, text: Seq<char>) -> bool {
        &&& !has_command(pieces(text, '\n'))
        &&& !typing_command(self.input@)
        &&& line_count(text) <= MAX_PASTE_LINES
        &&& self.state.active() matches Some(b) && self.takes_multiline(b.connection_id@)
    }

    /// What is to be done about a paste. `wizard` says whether a text field of the open wizard has
    /// the focus, `shell` whether the shell of the active buffer asked for bracketed pastes.
    pub open spec fn paste_action(&self, text: Seq<char>, wizard: Option<bool>, shell: Option<bool>) -> PasteActionV {
        let lines = pieces(text, '\n');
        let full = nonempty(stripped(lines));
        match wizard {
            Some(true) => PasteActionV::Wizard(printable(trim_cr(lines[0]))),
            Some(false) => PasteActionV::Swallow,
            None => match shell {
                Some(bracketed) if self.shell_input_active && self.state.active() is Some =>
                    PasteActionV::Shell(bracketed),
                _ => if full.len() <= 1 {
                    PasteActionV::Insert(
                        if full.len() == 1 {
                            full[0]
                        } else {
                            Seq::empty()
                        },
                    )
                } else if self.coalesces(text) {
                    PasteActionV::Submit(
                        self.input@ + join_seq(without_blank_end(stripped(lines)), seq!['\n']),
                    )
                } else {
                    PasteActionV::Submit(self.input@ + full[0])
                },
            },
        }
    }

    /// The lines that wait after a paste.
    pub open spec fn queue_after(&self, text: Seq<char>, action: PasteActionV) -> Seq<Seq<char>> {
        if action is Submit && !self.coalesces(text) {
            capped(nonempty(stripped(pieces(text, '\n'))).skip(1), MAX_PASTE_LINES as nat)
        } else {
            texts(self.paste_queue@)
        }
    }

    /// Handles a paste: a single line goes to the input line; several lines go out as one message
    /// where the connection takes that, else one by one, the first at once and the rest queued.
    pub fn handle_paste(&mut self, text: &str, wizard: Option<bool>, shell: Option<bool>) -> (r: PasteAction)
        ensures
            r@ == old(self).paste_action(text@, wizard, shell),
            *final(self) == (App {
                input: final(self).input,
                paste_queue: final(self).paste_queue,
                ..*old(self)
            }),
            final(self).input@ == (if r@ is Submit {
                Seq::<char>::empty()
            } else {
                old(self).input@
            }),
            texts(final(self).paste_queue@) == old(self).queue_after(text@, r@),
    {
        let ghost before = *self;
        let lines = split(text, '\n');
        match wizard {
            Some(focused) => {
                if focused {
                    assert(texts(lines@)[0] == lines@[0]@);
                    let line = strip_cr(lines[0].as_str());
                    return PasteAction::Wizard(keep_printable(line.as_str()));
                }
                return PasteAction::Swallow;
            },
            None => {},
        }
        if self.shell_input_active && self.state.active_buffer().is_some() {
            match shell {
                Some(bracketed) => {
                    return PasteAction::Shell { bracketed };
                },
                None => {},
            }
        }
        let raw = strip_all(&lines);
        let mut full = keep_full(&raw);
        assert(texts(full@).len() == full@.len());
        if full.len() <= 1 {
            let single = if full.len() == 1 {
                assert(texts(full@)[0] == full@[0]@);
                full[0].clone()
            } else {
                String::new()
            };
            return PasteAction::Insert(single);
        }
        if self.paste_coalesces(text, &lines) {
            let kept = drop_blank_end(raw);
            proof {
                reveal_strlit("\n");
                assert("\n"@ =~= seq!['\n']);
            }
            let body = join(&kept, "\n");
            let joined = concat(self.input.as_str(), body.as_str());
            self.input = String::new();
            return PasteAction::Submit(joined);
        }
        let ghost all = texts(full@);
        let ghost was = full@;
        let head = full.remove(0);
        assert(texts(full@) =~= all.skip(1)) by {
            assert(full@ =~= was.skip(1));
        }
        assert(all[0] == head@);
        let first = concat(self.input.as_str(), head.as_str());
        self.input = String::new();
        let ghost rest = texts(full@);
        if full.len() > MAX_PASTE_LINES {
            full.truncate(MAX_PASTE_LINES);
            assert(texts(full@) =~= rest.take(MAX_PASTE_LINES as int));
        }
        self.paste_queue = full;
        PasteAction::Submit(first)
    }

    fn paste_coalesces(&self, text: &str, lines: &Vec<String>) -> (r: bool)
        requires
            texts(lines@) == pieces(text@, '\n'),
            lines@.len() >= 1,
        ensures
            r == self.coalesces(text@),
    {
        let n: usize = lines.len();
        let mut i: usize = 0;
        while i < n
            invariant
                n == lines@.len(),
                i <= n,
                texts(lines@) == pieces(text@, '\n'),
                forall|j: int| 0 <= j < i ==> !typing_command(#[trigger] texts(lines@)[j]),
            decreases n - i,
        {
            if is_command(lines[i].as_str()) {
                assert(typing_command(texts(lines@)[i as int]));
                return false;
            }
            i = i + 1;
        }
        if is_command(self.input.as_str()) {
            return false;
        }
        assert(texts(lines@).last() == lines@[n - 1]@);
        let count: usize = if lines[n - 1].as_str().is_empty() {
            n - 1
        } else {
            n
        };
        if count > MAX_PASTE_LINES {
            return false;
        }
        match self.state.active_buffer() {
            None => false,
            Some(b) => self.multiline_supported(b.connection_id.as_str()),
        }
    }

    /// Takes the next queued line of a paste, to be submitted.
    pub fn drain_paste_queue(&mut self) -> (r: Option<String>)
        ensures
            *final(self) == (App { paste_queue: final(self).paste_queue, ..*old(self) }),
            match r {
                Some(line) => old(self).paste_queue@.len() > 0 && line == old(self).paste_queue@[0]
                    && final(self).paste_queue@ == old(self).paste_queue@.skip(1),
                None => old(self).paste_queue@.len() == 0 && final(self).paste_queue
                    == old(self).paste_queue,
            },
    {
        if self.paste_queue.len() == 0 {
            return None;
        }
        let ghost was = self.paste_queue@;
        let line = self.paste_queue.remove(0);
        assert(self.paste_queue@ =~= was.skip(1));
        Some(line)
    }
}

/// `s` without its trailing carriage returns.
fn strip_cr(s: &str) -> (r: String)
    ensures
        r@ == trim_cr(s@),
{
    let v = chars_of(s);
    let mut n: usize = v.len();
    assert(v@.take(n as int) =~= v@);
    while n > 0 && v[n - 1] == '\r'
        invariant
            n <= v@.len(),
            v@ == s@,
            trim_cr(v@.take(n as int)) == trim_cr(v@),
        decreases n,
    {
        assert(v@.take(n as int).drop_last() =~= v@.take(n - 1));
        n = n - 1;
    }
    let r = slice_text(&v, 0, n);
    assert(r@ =~= v@.take(n as int));
    r
}

/// A control character.
pub fn is_control(c: char) -> (r: bool)
    ensures
        r == control(c),
{
    let n: u32 = c as u32;
    n < 0x20 || (0x7f <= n && n < 0xa0)
}

/// `s` without control characters.
fn keep_printable(s: &str) -> (r: String)
    ensures
        r@ == printable(s@),
{
    let v = chars_of(s);
    let mut r = String::new();
    let mut i: usize = 0;
    assert(v@.take(0) =~= Seq::<char>::empty());
    while i < v.len()
        invariant
            v@ == s@,
            i <= v@.len(),
            r@ == printable(v@.take(i as int)),
        decreases v@.len() - i,
    {
        assert(v@.take(i + 1).drop_last() =~= v@.take(i as int));
        assert(v@.take(i + 1).last() == v@[i as int]);
        if !is_control(v[i]) {
            r.push(v[i]);
        }
        i = i + 1;
    }
    assert(v@.take(v@.len() as int) =~= v@);
    r
}

/// Every line without its trailing carriage returns.
fn strip_all(lines: &Vec<String>) -> (r: Vec<String>)
    ensures
        texts(r@) == stripped(texts(lines@)),
{
    let ghost want = stripped(texts(lines@));
    let mut r: Vec<String> = Vec::new();
    let mut i: usize = 0;
    while i < lines.len()
        invariant
            i <= lines@.len(),
            want == stripped(texts(lines@)),
            texts(r@) =~= want.take(i as int),
        decreases lines@.len() - i,
    {
        let ghost was = texts(r@);
        let line = strip_cr(lines[i].as_str());
        assert(want[i as int] == line@);
        let ghost l = line@;
        r.push(line);
        assert(texts(r@) =~= was.push(l));
        i = i + 1;
    }
    assert(want.take(want.len() as int) =~= want);
    r
}

/// The lines that are not empty.
fn keep_full(lines: &Vec<String>) -> (r: Vec<String>)
    ensures
        texts(r@) == nonempty(texts(lines@)),
{
    let ghost all = texts(lines@);
    let mut r: Vec<String> = Vec::new();
    let mut i: usize = 0;
    assert(all.take(0) =~= Seq::<Seq<char>>::empty());
    assert(texts(r@) =~= Seq::<Seq<char>>::empty());
    while i < lines.len()
        invariant
            i <= lines@.len(),
            all == texts(lines@),
            texts(r@) == nonempty(all.take(i as int)),
        decreases lines@.len() - i,
    {
        assert(all.take(i + 1).drop_last() =~= all.take(i as int));
        assert(all.take(i + 1).last() == lines@[i as int]@);
        let ghost was = texts(r@);
        if !lines[i].as_str().is_empty() {
            r.push(lines[i].clone());
            assert(texts(r@) =~= was.push(all[i as int]));
        }
        i = i + 1;
    }
    assert(all.take(all.len() as int) =~= all);
    r
}

/// The lines up to the last one that is not empty.
fn drop_blank_end(lines: Vec<String>) -> (r: Vec<String>)
    ensures
        texts(r@) == without_blank_end(texts(lines@)),
{
    let mut r = lines;
    while r.len() > 0 && r[r.len() - 1].as_str().is_empty()
        invariant
            without_blank_end(texts(r@)) == without_blank_end(texts(lines@)),
        decreases r@.len(),
    {
        let ghost was = texts(r@);
        assert(was.last() == r@[r@.len() - 1]@);
        r.pop();
        assert(texts(r@) =~= was.drop_last());
    }
    assert(r@.len() > 0 ==> texts(r@).last() == r@[r@.len() - 1]@);
    r
}

/// No more lines wait after a paste than the limit, where none more waited before it.
pub proof fn paste_queue_is_bounded(
    app: App,
    text: Seq<char>,
    wizard: Option<bool>,
    shell: Option<bool>,
)
    requires
        app.paste_queue@.len() <= MAX_PASTE_LINES,
    ensures
        app.queue_after(text, app.paste_action(text, wizard, shell)).len() <= MAX_PASTE_LINES,
{
}

/// Leaving out blank lines loses no text.
proof fn lemma_nonempty_glued(lines: Seq<Seq<char>>)
    ensures
        glued(nonempty(lines)) == glued(lines),
        nonempty(lines).len() <= lines.len(),
    decreases lines.len(),
{
    if lines.len() > 0 {
        let init = nonempty(lines.drop_last());
        lemma_nonempty_glued(lines.drop_last());
        if lines.last().len() == 0 {
            assert(glued(lines) =~= glued(lines.drop_last()));
        } else {
            assert(init.push(lines.last()).drop_last() =~= init);
        }
    }
}

/// Leaving out blank lines at the end loses no text.
proof fn lemma_blank_end_glued(lines: Seq<Seq<char>>)
    ensures
        glued(without_blank_end(lines)) == glued(lines),
        without_blank_end(lines).is_prefix_of(lines),
    decreases lines.len(),
{
    if lines.len() > 0 && lines.last().len() == 0 {
        lemma_blank_end_glued(lines.drop_last());
        assert(glued(lines) =~= glued(lines.drop_last()));
        let w = without_blank_end(lines);
        assert(w =~= lines.subrange(0, w.len() as int)) by {
            assert(w =~= lines.drop_last().subrange(0, w.len() as int));
        }
    } else {
        assert(lines =~= lines.subrange(0, lines.len() as int));
    }
}

/// Lines with line breaks between them are the lines, but for the line breaks.
proof fn lemma_joined_glued(lines: Seq<Seq<char>>)
    requires
        forall|i: int| 0 <= i < lines.len() ==> !(#[trigger] lines[i]).contains('\n'),
    ensures
        join_seq(lines, seq!['\n']).filter(|c: char| c != '\n') == glued(lines),
    decreases lines.len(),
{
    let kept = |c: char| c != '\n';
    if lines.len() == 0 {
        reveal(Seq::filter);
        assert(join_seq(lines, seq!['\n']).filter(kept) =~= glued(lines));
    } else {
        let last = lines.last();
        assert(!lines[lines.len() - 1].contains('\n'));
        lemma_kept_whole(last);
        if lines.len() == 1 {
            lemma_glued_one(last);
            assert(lines =~= seq![last]);
        } else {
            let rest = lines.drop_last();
            assert forall|i: int| 0 <= i < rest.len() implies !(#[trigger] rest[i]).contains('\n') by {
                assert(rest[i] == lines[i]);
            }
            lemma_joined_glued(rest);
            let front = join_seq(rest, seq!['\n']);
            Seq::filter_distributes_over_add(front + seq!['\n'], last, kept);
            Seq::filter_distributes_over_add(front, seq!['\n'], kept);
            assert(seq!['\n'].filter(kept) =~= Seq::<char>::empty()) by {
                reveal(Seq::filter);
                assert(seq!['\n'].drop_last() =~= Seq::<char>::empty());
                assert(seq!['\n'].drop_last().filter(kept) =~= Seq::<char>::empty());
            }
            assert(join_seq(lines, seq!['\n']).filter(kept) =~= glued(lines));
        }
    }
}

/// A line has nothing that is left out.
proof fn lemma_kept_whole(s: Seq<char>)
    requires
        !s.contains('\n'),
    ensures
        s.filter(|c: char| c != '\n') == s,
    decreases s.len(),
{
    reveal(Seq::filter);
    if s.len() > 0 {
        let rest = s.drop_last();
        assert(s[s.len() - 1] != '\n');
        assert forall|i: int| 0 <= i < rest.len() implies rest[i] != '\n' by {
            assert(s[i] == rest[i]);
        }
        lemma_kept_whole(rest);
        assert(rest.push(s.last()) =~= s);
    }
}

/// Nothing of a paste is lost or put in another order. Where it goes into the input line or is sent, its text
/// without line breaks and carriage returns is what goes in, what is submitted at once behind what stood in the
/// input line, and what waits in the queue, one behind the other; unless it has more lines than are sent.
pub proof fn pastes_keep_their_text(
    app: App,
    after: App,
    text: Seq<char>,
    wizard: Option<bool>,
    shell: Option<bool>,
    r: PasteAction,
)
    requires
        r@ == app.paste_action(text, wizard, shell),
        texts(after.paste_queue@) == app.queue_after(text, r@),
        app.paste_queue@.len() == 0,
        !text.contains('\r'),
        pieces(text, '\n').len() <= MAX_PASTE_LINES,
    ensures
        match r@ {
            PasteActionV::Insert(line) => line == text.filter(|c: char| c != '\n') && after.paste_queue@.len() == 0,
            PasteActionV::Submit(now) => {
                &&& app.input@.is_prefix_of(now)
                &&& now.skip(app.input@.len() as int).filter(|c: char| c != '\n') + glued(
                    texts(after.paste_queue@),
                ) == text.filter(|c: char| c != '\n')
            },
            _ => after.paste_queue@.len() == 0,
        },
{
    let kept = |c: char| c != '\n';
    let lines = pieces(text, '\n');
    let full = nonempty(stripped(lines));
    lemma_pieces_without(text, '\n', '\r');
    lemma_pieces_unparted(text, '\n');
    assert(stripped(lines) =~= lines) by {
        assert forall|i: int| 0 <= i < lines.len() implies trim_cr(#[trigger] lines[i]) == lines[i] by {
            assert(!lines[i].contains('\r'));
            assert(lines[i].len() > 0 ==> lines[i][lines[i].len() - 1] != '\r');
        }
    }
    lemma_glued_pieces(text, '\n');
    lemma_nonempty_glued(lines);
    lemma_nonempty_lines(lines);
    assert(texts(after.paste_queue@).len() == after.paste_queue@.len());
    assert(texts(app.paste_queue@) =~= Seq::<Seq<char>>::empty());
    match r@ {
        PasteActionV::Insert(line) => {
            if full.len() == 1 {
                lemma_glued_one(full[0]);
                assert(full =~= seq![full[0]]);
            } else {
                assert(full =~= Seq::<Seq<char>>::empty());
            }
            assert(line =~= text.filter(kept));
        },
        PasteActionV::Submit(now) => {
            let said = now.skip(app.input@.len() as int);
            assert(app.input@ =~= now.subrange(0, app.input@.len() as int));
            if app.coalesces(text) {
                let body = without_blank_end(lines);
                lemma_blank_end_glued(lines);
                assert(said =~= join_seq(body, seq!['\n']));
                assert forall|i: int| 0 <= i < body.len() implies !(#[trigger] body[i]).contains('\n') by {
                    assert(body[i] == lines[i]);
                }
                lemma_joined_glued(body);
                assert(said.filter(kept) + glued(texts(after.paste_queue@)) =~= text.filter(kept));
            } else {
                assert(said =~= full[0]);
                assert(!full[0].contains('\n'));
                lemma_kept_whole(full[0]);
                lemma_glued_one(full[0]);
                assert(full =~= seq![full[0]] + full.skip(1));
                lemma_glued_both(seq![full[0]], full.skip(1));
            }
        },
        _ => {},
    }
}

/// The lines that are not blank are lines.
proof fn lemma_nonempty_lines(lines: Seq<Seq<char>>)
    requires
        forall|i: int| 0 <= i < lines.len() ==> !(#[trigger] lines[i]).contains('\n'),
    ensures
        forall|i: int| 0 <= i < nonempty(lines).len() ==> !(#[trigger] nonempty(lines)[i]).contains('\n'),
    decreases lines.len(),
{
    if lines.len() > 0 {
        let rest = lines.drop_last();
        assert forall|i: int| 0 <= i < rest.len() implies !(#[trigger] rest[i]).contains('\n') by {
            assert(rest[i] == lines[i]);
        }
        lemma_nonempty_lines(rest);
        let init = nonempty(rest);
        assert(!lines[lines.len() - 1].contains('\n'));
        assert forall|i: int| 0 <= i < nonempty(lines).len() implies !(#[trigger] nonempty(lines)[i]).contains(
            '\n',
        ) by {
            if i < init.len() {
                assert(nonempty(lines)[i] == init[i]);
            }
        }
    }
}

/// Control characters do not get into the input line, and everything else does, in its order.
pub proof fn control_characters_are_left_out(s: Seq<char>)
    ensures
        printable(s) == s.filter(|c: char| !((c as nat) < 0x20 || 0x7f <= (c as nat) < 0xa0)),
    decreases s.len(),
{
    reveal(Seq::filter);
    if s.len() > 0 {
        control_characters_are_left_out(s.drop_last());
    } else {
        assert(printable(s) =~= s.filter(|c: char| !((c as nat) < 0x20 || 0x7f <= (c as nat) < 0xa0)));
    }
}

} // verus!
