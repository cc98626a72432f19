//! Lines on the wire: commands, outgoing queues and the splitting of long texts.
use vstd::prelude::*;

use crate::text::{
    char_bytes, char_len, chars_of, lemma_some_piece, opt_text, pieces, separators_part_a_text, slice_text,
    split, text_bytes, texts, unparted_text_is_one_piece,
};

verus! {

broadcast use vstd::string::group_string_axioms;

/// The most bytes that the text of one message may take.
pub const MESSAGE_MAX_BYTES: usize = 400;

/// A message tag.
#[derive(Debug)]
pub struct Tag {
    pub key: String,
    pub value: Option<String>,
}

/// The model of a [`Tag`].
pub struct TagV {
    pub key: Seq<char>,
    pub value: Option<Seq<char>>,
}

impl View for Tag {
    type V = TagV;

    open spec fn view(&self) -> TagV {
        TagV { key: self.key@, value: opt_text(self.value) }
    }
}

/// The models of a list of tags.
pub open spec fn tag_views(v: Seq<Tag>) -> Seq<TagV> {
    v.map_values(|t: Tag| t@)
}

/// A command with its tags and parameters.
#[derive(Debug)]
pub struct Command {
    pub tags: Vec<Tag>,
    pub verb: String,
    pub params: Vec<String>,
}

/// The model of a [`Command`].
#[verifier::ext_equal]
pub struct CommandV {
    pub tags: Seq<TagV>,
    pub verb: Seq<char>,
    pub params: Seq<Seq<char>>,
}

/// A command without tags.
pub open spec fn untagged(verb: Seq<char>, params: Seq<Seq<char>>) -> CommandV {
    CommandV { tags: Seq::empty(), verb, params }
}

/// A message to a target.
pub open spec fn privmsg_v(target: Seq<char>, text: Seq<char>) -> CommandV {
    untagged("PRIVMSG"@, seq![target, text])
}

impl View for Command {
    type V = CommandV;

    open spec fn view(&self) -> CommandV {
        CommandV { tags: tag_views(self.tags@), verb: self.verb@, params: texts(self.params@) }
    }
}

/// The models of a list of commands.
pub open spec fn command_views(v: Seq<Command>) -> Seq<CommandV> {
    v.map_values(|c: Command| c@)
}

/// A command with no parameter.
pub fn command0(verb: &str) -> (r: Command)
    ensures
        r@ == untagged(verb@, Seq::empty()),
{
    let params: Vec<String> = Vec::new();
    let r = Command { tags: Vec::new(), verb: verb.to_string(), params };
    assert(r@ =~= untagged(verb@, Seq::empty()));
    r
}

/// A command with one parameter.
pub fn command1(verb: &str, a: &str) -> (r: Command)
    ensures
        r@ == untagged(verb@, seq![a@]),
{
    let mut params: Vec<String> = Vec::new();
    params.push(a.to_string());
    let r = Command { tags: Vec::new(), verb: verb.to_string(), params };
    assert(r@ =~= untagged(verb@, seq![a@]));
    r
}

/// A command with two parameters.
pub fn command2(verb: &str, a: &str, b: &str) -> (r: Command)
    ensures
        r@ == untagged(verb@, seq![a@, b@]),
{
    let mut params: Vec<String> = Vec::new();
    params.push(a.to_string());
    params.push(b.to_string());
    let r = Command { tags: Vec::new(), verb: verb.to_string(), params };
    assert(r@ =~= untagged(verb@, seq![a@, b@]));
    r
}

/// A command with three parameters.
pub fn command3(verb: &str, a: &str, b: &str, c: &str) -> (r: Command)
    ensures
        r@ == untagged(verb@, seq![a@, b@, c@]),
{
    let mut params: Vec<String> = Vec::new();
    params.push(a.to_string());
    params.push(b.to_string());
    params.push(c.to_string());
    let r = Command { tags: Vec::new(), verb: verb.to_string(), params };
    assert(r@ =~= untagged(verb@, seq![a@, b@, c@]));
    r
}

/// The connection behind a sender is gone.
#[derive(Clone, Copy, Debug, PartialEq, Eq, Structural)]
pub struct SendError;

/// The outgoing side of a connection: what it accepted, and how much more it will accept.
#[derive(Debug)]
pub struct IrcSender {
    pub sent: Vec<Command>,
    /// How many more commands go through before the connection fails; `None` for no limit.
    pub room: Option<u64>,
    /// What a failure is told as.
    pub error: String,
}

impl IrcSender {
    /// Whether the next command goes through.
    pub open spec fn open(&self) -> bool {
        self.room != Some(0u64)
    }

    /// The room after one more command.
    pub open spec fn room_after(&self) -> Option<u64> {
        match self.room {
            Some(n) if n > 0 => Some((n - 1) as u64),
            other => other,
        }
    }

    /// What was accepted.
    pub open spec fn accepted(&self) -> Seq<CommandV> {
        command_views(self.sent@)
    }

    /// A sender on an open connection.
    pub fn connected() -> (r: IrcSender)
        ensures
            r.sent@ == Seq::<Command>::empty(),
            r.room is None,
            r.error@ == "connection closed"@,
    {
        IrcSender { sent: Vec::new(), room: None, error: "connection closed".to_string() }
    }

    /// A sender that fails after `n` commands.
    pub fn failing_after(n: u64) -> (r: IrcSender)
        ensures
            r.sent@ == Seq::<Command>::empty(),
            r.room == Some(n),
            r.error@ == "connection closed"@,
    {
        IrcSender { sent: Vec::new(), room: Some(n), error: "connection closed".to_string() }
    }

    /// Hands a command to the connection.
    pub fn send(&mut self, command: Command) -> (r: Result<(), SendError>)
        ensures
            if old(self).open() {
                &&& r is Ok
                &&& final(self).sent@ == old(self).sent@.push(command)
                &&& final(self).accepted() == old(self).accepted().push(command@)
                &&& final(self).room == old(self).room_after()
                &&& final(self).error == old(self).error
            } else {
                &&& r == Err::<(), SendError>(SendError)
                &&& *final(self) == *old(self)
            },
    {
        match self.room {
            Some(n) => {
                if n == 0 {
                    return Err(SendError);
                }
                self.room = Some(n - 1);
            },
            None => {},
        }
        self.sent.push(command);
        assert(self.accepted() =~= old(self).accepted().push(command@));
        Ok(())
    }
}

/// The commands that carry lines to a target, one message each.
pub open spec fn privmsgs(target: Seq<char>, lines: Seq<Seq<char>>) -> Seq<CommandV> {
    lines.map_values(|line: Seq<char>| privmsg_v(target, line))
}

impl IrcSender {
    /// How many of `n` commands go through.
    pub open spec fn passing(&self, n: nat) -> nat {
        match self.room {
            Some(room) if room < n => room as nat,
            _ => n,
        }
    }

    /// What holds after `commands` were handed over up to the first failure.
    pub open spec fn took(&self, after: IrcSender, commands: Seq<CommandV>) -> bool {
        &&& after.accepted() == self.accepted() + commands.take(self.passing(commands.len()) as int)
        &&& after.error == self.error
        &&& after.room == (match self.room {
            Some(room) => Some((room - self.passing(commands.len())) as u64),
            None => None::<u64>,
        })
    }

    /// Sends lines to a target, one message each, up to the first failure; tells how many went
    /// through.
    pub fn send_privmsgs(&mut self, target: &str, lines: &Vec<String>) -> (r: usize)
        ensures
            r == old(self).passing(lines@.len()),
            r <= lines@.len(),
            old(self).took(*final(self), privmsgs(target@, texts(lines@))),
    {
        let ghost before = *self;
        let ghost commands = privmsgs(target@, texts(lines@));
        let mut i: usize = 0;
        assert(self.accepted() =~= before.accepted() + commands.take(0));
        while i < lines.len()
            invariant
                i <= lines@.len(),
                before == *old(self),
                commands == privmsgs(target@, texts(lines@)),
                commands.len() == lines@.len(),
                self.accepted() == before.accepted() + commands.take(i as int),
                self.error == before.error,
                match before.room {
                    Some(room) => i <= room && self.room == Some((room - i) as u64),
                    None => self.room is None,
                },
            decreases lines@.len() - i,
        {
            let command = command2("PRIVMSG", target, lines[i].as_str());
            assert(command@ == commands[i as int]);
            if self.send(command).is_err() {
                assert(before.passing(commands.len()) == i);
                return i;
            }
            assert(self.accepted() =~= before.accepted() + commands.take(i + 1));
            i = i + 1;
        }
        i
    }
}

impl IrcSender {
    /// Hands commands over, up to the first failure; tells how many went through.
    pub fn send_all(&mut self, commands: Vec<Command>) -> (r: usize)
        ensures
            r == old(self).passing(commands@.len()),
            r <= commands@.len(),
            old(self).took(*final(self), command_views(commands@)),
    {
        let ghost before = *self;
        let ghost all = command_views(commands@);
        let mut rest = commands;
        let mut i: usize = 0;
        assert(self.accepted() =~= before.accepted() + all.take(0));
        while rest.len() > 0
            invariant
                i + rest@.len() == commands@.len(),
                before == *old(self),
                all == command_views(commands@),
                rest@ == commands@.skip(i as int),
                self.accepted() == before.accepted() + all.take(i as int),
                self.error == before.error,
                match before.room {
                    Some(room) => i <= room && self.room == Some((room - i) as u64),
                    None => self.room is None,
                },
            decreases rest@.len(),
        {
            let n: usize = rest.len();
            let command = rest.remove(0);
            assert(command@ == all[i as int]);
            if self.send(command).is_err() {
                assert(before.passing(all.len()) == i);
                return i;
            }
            assert(self.accepted() =~= before.accepted() + all.take(i + 1));
            assert(rest@ =~= commands@.skip(i + 1));
            assert(commands@.len() <= usize::MAX) by {
                assert(commands.len() == commands@.len());
            }
            i = i + 1;
        }
        assert(all.take(all.len() as int) =~= all);
        i
    }
}

/// The outgoing side of a line-based connection.
#[derive(Debug)]
pub struct LineSender {
    pub sent: Vec<String>,
    /// How many more lines go through before the connection fails; `None` for no limit.
    pub room: Option<u64>,
    /// What a failure is told as.
    pub error: String,
}

impl LineSender {
    /// How many of `n` lines go through.
    pub open spec fn passing(&self, n: nat) -> nat {
        match self.room {
            Some(room) if room < n => room as nat,
            _ => n,
        }
    }

    /// What holds after `lines` were handed over up to the first failure.
    pub open spec fn took(&self, after: LineSender, lines: Seq<Seq<char>>) -> bool {
        &&& texts(after.sent@) == texts(self.sent@) + lines.take(self.passing(lines.len()) as int)
        &&& after.error == self.error
        &&& after.room == (match self.room {
            Some(room) => Some((room - self.passing(lines.len())) as u64),
            None => None::<u64>,
        })
    }

    /// Sends lines up to the first failure; tells how many went through.
    pub fn send_lines(&mut self, lines: &Vec<String>) -> (r: usize)
        ensures
            r == old(self).passing(lines@.len()),
            r <= lines@.len(),
            old(self).took(*final(self), texts(lines@)),
    {
        let ghost before = *self;
        let ghost all = texts(lines@);
        let mut i: usize = 0;
        assert(texts(self.sent@) =~= texts(before.sent@) + all.take(0));
        while i < lines.len()
            invariant
                i <= lines@.len(),
                before == *old(self),
                all == texts(lines@),
                texts(self.sent@) == texts(before.sent@) + all.take(i as int),
                self.error == before.error,
                match before.room {
                    Some(room) => i <= room && self.room == Some((room - i) as u64),
                    None => self.room is None,
                },
            decreases lines@.len() - i,
        {
            match self.room {
                Some(room) => {
                    if room == 0 {
                        assert(before.passing(all.len()) == i);
                        return i;
                    }
                    self.room = Some(room - 1);
                },
                None => {},
            }
            let ghost was = texts(self.sent@);
            self.sent.push(lines[i].clone());
            assert(texts(self.sent@) =~= was.push(all[i as int]));
            assert(texts(self.sent@) =~= texts(before.sent@) + all.take(i + 1));
            i = i + 1;
        }
        i
    }
}

/// Handing over in two steps is handing over in one.
pub proof fn lemma_took_twice(
    a: IrcSender,
    b: IrcSender,
    c: IrcSender,
    x: Seq<CommandV>,
    y: Seq<CommandV>,
)
    requires
        a.took(b, x),
        b.took(c, y),
    ensures
        a.took(c, x + y),
{
    let n = a.passing(x.len());
    let m = b.passing(y.len());
    if n < x.len() {
        assert(m == 0);
    }
    assert(a.passing((x + y).len()) == n + m);
    assert((x + y).take((n + m) as int) =~= x.take(n as int) + y.take(m as int));
    assert(a.accepted() + (x.take(n as int) + y.take(m as int)) =~= a.accepted() + x.take(n as int)
        + y.take(m as int));
}

/// Handing over nothing changes nothing.
pub proof fn lemma_took_nothing(a: IrcSender)
    ensures
        a.took(a, Seq::empty()),
{
    assert(a.accepted() + Seq::<CommandV>::empty().take(0) =~= a.accepted());
}

/// How many leading characters of `s` fit into `max` bytes.
pub open spec fn fitting(s: Seq<char>, max: nat) -> nat
    decreases s.len(),
{
    if text_bytes(s) <= max || s.len() == 0 {
        s.len()
    } else {
        fitting(s.drop_last(), max)
    }
}

/// `s` cut into the longest parts of at most `max` bytes; a part holds at least one character.
pub open spec fn chunks(s: Seq<char>, max: nat) -> Seq<Seq<char>>
    decreases s.len(),
{
    if s.len() == 0 {
        Seq::empty()
    } else {
        let fit = fitting(s, max);
        let n = if fit == 0 {
            1
        } else {
            fit
        };
        proof {
            lemma_fitting_fits(s, max);
        }
        seq![s.take(n as int)] + chunks(s.skip(n as int), max)
    }
}

/// The parts of all lines, one line after the other.
pub open spec fn line_chunks(lines: Seq<Seq<char>>, max: nat) -> Seq<Seq<char>>
    decreases lines.len(),
{
    if lines.len() == 0 {
        Seq::empty()
    } else {
        line_chunks(lines.drop_last(), max) + chunks(lines.last(), max)
    }
}

/// The messages that a text goes out as: each non-empty line, cut to size.
pub open spec fn message_lines(text: Seq<char>, max: nat) -> Seq<Seq<char>> {
    line_chunks(pieces(text, '\n'), max)
}

proof fn lemma_bytes_prefix(s: Seq<char>, k: int)
    requires
        0 <= k <= s.len(),
    ensures
        text_bytes(s.take(k)) <= text_bytes(s),
        k < s.len() ==> text_bytes(s.take(k)) < text_bytes(s),
    decreases s.len() - k,
{
    if k == s.len() {
        assert(s.take(k) =~= s);
    } else {
        assert(s.take(k + 1).drop_last() =~= s.take(k));
        lemma_bytes_prefix(s, k + 1);
    }
}

/// The number of fitting characters is the largest one.
proof fn lemma_fitting(s: Seq<char>, max: nat, k: int)
    requires
        0 <= k <= s.len(),
        text_bytes(s.take(k)) <= max,
        k < s.len() ==> text_bytes(s.take(k + 1)) > max,
    ensures
        fitting(s, max) == k,
    decreases s.len() - k,
{
    if k == s.len() {
        assert(s.take(k) =~= s);
    } else {
        lemma_bytes_prefix(s, k + 1);
        let t = s.drop_last();
        assert(t.take(k) =~= s.take(k));
        if k < t.len() {
            assert(t.take(k + 1) =~= s.take(k + 1));
        }
        lemma_fitting(t, max, k);
    }
}

/// What fits, fits.
pub proof fn lemma_fitting_fits(s: Seq<char>, max: nat)
    ensures
        fitting(s, max) <= s.len(),
        text_bytes(s.take(fitting(s, max) as int)) <= max,
    decreases s.len(),
{
    if text_bytes(s) <= max || s.len() == 0 {
        assert(s.take(s.len() as int) =~= s);
    } else {
        lemma_fitting_fits(s.drop_last(), max);
        assert(s.drop_last().take(fitting(s, max) as int) =~= s.take(fitting(s, max) as int));
    }
}

/// Puts the parts of `v[from..to]` at the end of `out`.
fn push_chunks(v: &Vec<char>, from: usize, to: usize, max: usize, out: &mut Vec<String>)
    requires
        from <= to <= v@.len(),
        max < usize::MAX - 4,
    ensures
        texts(final(out)@) == texts(old(out)@) + chunks(v@.subrange(from as int, to as int), max as nat),
    decreases to - from,
{
    let ghost s = v@.subrange(from as int, to as int);
    if from == to {
        assert(texts(out@) + Seq::<Seq<char>>::empty() =~= texts(out@));
        return;
    }
    let mut bytes: usize = 0;
    let mut i: usize = from;
    assert(s.take(0) =~= Seq::<char>::empty());
    while i < to && bytes + char_len(v[i]) <= max
        invariant
            from <= i <= to <= v@.len(),
            max < usize::MAX - 4,
            s == v@.subrange(from as int, to as int),
            bytes <= max,
            bytes == text_bytes(s.take(i - from)),
        decreases to - i,
    {
        assert(s.take(i - from + 1).drop_last() =~= s.take(i - from));
        assert(s.take(i - from + 1).last() == v@[i as int]);
        bytes = bytes + char_len(v[i]);
        i = i + 1;
    }
    proof {
        if i < to {
            assert(s.take(i - from + 1).drop_last() =~= s.take(i - from));
            assert(s.take(i - from + 1).last() == v@[i as int]);
        }
        lemma_fitting(s, max as nat, i - from);
    }
    if i == from {
        i = from + 1;
    }
    let ghost before = texts(out@);
    out.push(slice_text(v, from, i));
    proof {
        assert(v@.subrange(from as int, i as int) =~= s.take(i - from));
        assert(texts(out@) =~= before.push(s.take(i - from)));
        assert(v@.subrange(i as int, to as int) =~= s.skip(i - from));
        assert(chunks(s, max as nat) == seq![s.take(i - from)] + chunks(s.skip(i - from), max as nat));
    }
    push_chunks(v, i, to, max, out);
    assert(texts(out@) =~= before + (seq![s.take(i - from)] + chunks(s.skip(i - from), max as nat)));
}

/// One line cut to size.
pub fn cut_line(line: &str, max: usize) -> (r: Vec<String>)
    requires
        max < usize::MAX - 4,
    ensures
        texts(r@) == chunks(line@, max as nat),
{
    let v = chars_of(line);
    let n: usize = v.len();
    let mut r: Vec<String> = Vec::new();
    assert(v@.subrange(0, n as int) =~= v@);
    assert(texts(r@) =~= Seq::<Seq<char>>::empty());
    push_chunks(&v, 0, n, max, &mut r);
    assert(texts(r@) =~= chunks(line@, max as nat));
    r
}

/// The messages that a text goes out as.
pub fn split_irc_message(text: &str, max: usize) -> (r: Vec<String>)
    requires
        max < usize::MAX - 4,
    ensures
        texts(r@) == message_lines(text@, max as nat),
{
    let lines = split(text, '\n');
    let mut r: Vec<String> = Vec::new();
    let mut i: usize = 0;
    assert(texts(lines@).take(0) =~= Seq::<Seq<char>>::empty());
    assert(texts(r@) =~= Seq::<Seq<char>>::empty());
    while i < lines.len()
        invariant
            i <= lines@.len(),
            max < usize::MAX - 4,
            texts(lines@) == pieces(text@, '\n'),
            texts(r@) == line_chunks(texts(lines@).take(i as int), max as nat),
        decreases lines@.len() - i,
    {
        let v = chars_of(lines[i].as_str());
        let n: usize = v.len();
        assert(v@.subrange(0, n as int) =~= v@);
        push_chunks(&v, 0, n, max, &mut r);
        assert(texts(lines@).take(i + 1).drop_last() =~= texts(lines@).take(i as int));
        i = i + 1;
    }
    assert(texts(lines@).take(lines@.len() as int) =~= texts(lines@));
    r
}

/// Every message of a split text fits, where the limit leaves room for one character.
pub proof fn split_messages_fit(text: Seq<char>, max: nat)
    requires
        max >= 4,
    ensures
        forall|i: int|
            0 <= i < message_lines(text, max).len() ==> text_bytes(#[trigger] message_lines(text, max)[i])
                <= max,
{
    lemma_lines_fit(pieces(text, '\n'), max);
}

proof fn lemma_lines_fit(lines: Seq<Seq<char>>, max: nat)
    requires
        max >= 4,
    ensures
        forall|i: int|
            0 <= i < line_chunks(lines, max).len() ==> text_bytes(#[trigger] line_chunks(lines, max)[i])
                <= max,
    decreases lines.len(),
{
    if lines.len() > 0 {
        lemma_lines_fit(lines.drop_last(), max);
        lemma_chunks_fit(lines.last(), max);
        let init = line_chunks(lines.drop_last(), max);
        let last = chunks(lines.last(), max);
        assert forall|i: int| 0 <= i < line_chunks(lines, max).len() implies text_bytes(
            #[trigger] line_chunks(lines, max)[i],
        ) <= max by {
            if i < init.len() {
                assert(line_chunks(lines, max)[i] == init[i]);
            } else {
                assert(line_chunks(lines, max)[i] == last[i - init.len()]);
            }
        }
    }
}

pub proof fn lemma_chunks_fit(s: Seq<char>, max: nat)
    requires
        max >= 4,
    ensures
        forall|i: int| 0 <= i < chunks(s, max).len() ==> text_bytes(#[trigger] chunks(s, max)[i]) <= max,
    decreases s.len(),
{
    if s.len() > 0 {
        let fit = fitting(s, max);
        lemma_fitting_fits(s, max);
        if fit == 0 {
            assert(s.take(1).drop_last() =~= Seq::<char>::empty());
            assert(s.take(1).last() == s[0]);
            assert(text_bytes(s.take(1)) == char_bytes(s[0])) by {
                reveal_with_fuel(text_bytes, 2);
            }
        }
        let n = if fit == 0 {
            1
        } else {
            fit
        };
        lemma_chunks_fit(s.skip(n as int), max);
        let rest = chunks(s.skip(n as int), max);
        assert forall|i: int| 0 <= i < chunks(s, max).len() implies text_bytes(
            #[trigger] chunks(s, max)[i],
        ) <= max by {
            if i > 0 {
                assert(chunks(s, max)[i] == rest[i - 1]);
            }
        }
    }
}

/// The text of a sequence of parts.
pub open spec fn glued(parts: Seq<Seq<char>>) -> Seq<char>
    decreases parts.len(),
{
    if parts.len() == 0 {
        Seq::empty()
    } else {
        glued(parts.drop_last()) + parts.last()
    }
}

/// The parts of a line together are the line.
pub proof fn chunks_keep_the_text(s: Seq<char>, max: nat)
    ensures
        glued(chunks(s, max)) == s,
    decreases s.len(),
{
    if s.len() > 0 {
        lemma_fitting_fits(s, max);
        let fit = fitting(s, max);
        let n = if fit == 0 {
            1
        } else {
            fit
        };
        chunks_keep_the_text(s.skip(n as int), max);
        lemma_glued_cons(s.take(n as int), chunks(s.skip(n as int), max));
        assert(s.take(n as int) + s.skip(n as int) =~= s);
    }
}

proof fn lemma_glued_cons(first: Seq<char>, rest: Seq<Seq<char>>)
    ensures
        glued(seq![first] + rest) == first + glued(rest),
    decreases rest.len(),
{
    let all = seq![first] + rest;
    if rest.len() == 0 {
        assert(all.drop_last() =~= Seq::<Seq<char>>::empty());
        assert(glued(all.drop_last()) =~= Seq::<char>::empty());
        assert(all.last() == first);
        assert(glued(all) =~= first + glued(rest));
    } else {
        assert(all.drop_last() =~= seq![first] + rest.drop_last());
        lemma_glued_cons(first, rest.drop_last());
        assert(glued(all) =~= first + glued(rest));
    }
}

/// One part alone is the text.
pub proof fn lemma_glued_one(s: Seq<char>)
    ensures
        glued(seq![s]) == s,
{
    assert(seq![s].drop_last() =~= Seq::<Seq<char>>::empty());
    assert(glued(seq![s].drop_last()) =~= Seq::<char>::empty());
    assert(glued(seq![s]) =~= s);
}

/// Glueing goes part by part.
pub proof fn lemma_glued_both(a: Seq<Seq<char>>, b: Seq<Seq<char>>)
    ensures
        glued(a + b) == glued(a) + glued(b),
    decreases b.len(),
{
    if b.len() == 0 {
        assert(a + b =~= a);
        assert(glued(a) + glued(b) =~= glued(a));
    } else {
        assert((a + b).drop_last() =~= a + b.drop_last());
        assert((a + b).last() == b.last());
        lemma_glued_both(a, b.drop_last());
        assert(glued(a + b) =~= glued(a) + glued(b));
    }
}

/// The pieces of a text together are the text without its separators.
pub proof fn lemma_glued_pieces(s: Seq<char>, sep: char)
    ensures
        glued(pieces(s, sep)) == s.filter(|c: char| c != sep),
    decreases s.len(),
{
    reveal(Seq::filter);
    let kept = |c: char| c != sep;
    if s.len() == 0 {
        lemma_glued_one(Seq::empty());
        assert(glued(pieces(s, sep)) =~= s.filter(kept));
    } else {
        let rest = s.drop_last();
        let init = pieces(rest, sep);
        lemma_some_piece(rest, sep);
        lemma_glued_pieces(rest, sep);
        let all = pieces(s, sep);
        if s.last() == sep {
            assert(all.drop_last() =~= init);
            assert(glued(all) =~= s.filter(kept));
        } else {
            assert(all.drop_last() =~= init.drop_last());
            assert(glued(all) =~= glued(init).push(s.last()));
        }
    }
}

/// Cutting lines to size keeps their text.
proof fn lemma_glued_lines(lines: Seq<Seq<char>>, max: nat)
    ensures
        glued(line_chunks(lines, max)) == glued(lines),
    decreases lines.len(),
{
    if lines.len() > 0 {
        lemma_glued_lines(lines.drop_last(), max);
        chunks_keep_the_text(lines.last(), max);
        lemma_glued_both(line_chunks(lines.drop_last(), max), chunks(lines.last(), max));
    }
}

/// The messages that a text goes out as say the text, from its first character to its last, without its
/// line breaks.
pub proof fn messages_keep_the_text(text: Seq<char>, max: nat)
    ensures
        glued(message_lines(text, max)) == text.filter(|c: char| c != '\n'),
{
    lemma_glued_lines(pieces(text, '\n'), max);
    lemma_glued_pieces(text, '\n');
}

/// A line break ends a message: the messages of two texts with a line break between them are those of the
/// first and then those of the second.
pub proof fn line_breaks_end_messages(a: Seq<char>, b: Seq<char>, max: nat)
    ensures
        message_lines(a.push('\n') + b, max) == message_lines(a, max) + message_lines(b, max),
{
    separators_part_a_text(a, '\n', b);
    lemma_line_chunks_both(pieces(a, '\n'), pieces(b, '\n'), max);
}

proof fn lemma_line_chunks_both(a: Seq<Seq<char>>, b: Seq<Seq<char>>, max: nat)
    ensures
        line_chunks(a + b, max) == line_chunks(a, max) + line_chunks(b, max),
    decreases b.len(),
{
    if b.len() == 0 {
        assert(a + b =~= a);
        assert(line_chunks(a, max) + line_chunks(b, max) =~= line_chunks(a, max));
    } else {
        assert((a + b).drop_last() =~= a + b.drop_last());
        assert((a + b).last() == b.last());
        lemma_line_chunks_both(a, b.drop_last(), max);
        assert(line_chunks(a + b, max) =~= line_chunks(a, max) + line_chunks(b, max));
    }
}

/// A line that fits is one part, and a blank one is none.
pub proof fn lemma_short_line(s: Seq<char>, max: nat)
    requires
        text_bytes(s) <= max,
    ensures
        chunks(s, max) == (if s.len() == 0 {
            Seq::empty()
        } else {
            seq![s]
        }),
{
    if s.len() > 0 {
        assert(s.take(s.len() as int) =~= s);
        lemma_fitting(s, max, s.len() as int);
        assert(s.skip(s.len() as int) =~= Seq::<char>::empty());
        assert(chunks(s.skip(s.len() as int), max) =~= Seq::<Seq<char>>::empty());
        assert(chunks(s, max) =~= seq![s]);
    }
}

/// A text of one line that fits into a message goes out as it is, in that one message; nothing goes out for
/// an empty one.
pub proof fn short_lines_stay_whole(text: Seq<char>, max: nat)
    requires
        !text.contains('\n'),
        text_bytes(text) <= max,
    ensures
        message_lines(text, max) == (if text.len() == 0 {
            Seq::empty()
        } else {
            seq![text]
        }),
{
    unparted_text_is_one_piece(text, '\n');
    lemma_short_line(text, max);
    let one = seq![text];
    assert(one.drop_last() =~= Seq::<Seq<char>>::empty());
    assert(line_chunks(one.drop_last(), max) =~= Seq::<Seq<char>>::empty());
    assert(one.last() == text);
    assert(line_chunks(one, max) =~= chunks(text, max));
}

/// What the messages among some commands say to a target, one behind the other.
pub open spec fn said_to(commands: Seq<CommandV>, target: Seq<char>) -> Seq<char>
    decreases commands.len(),
{
    if commands.len() == 0 {
        Seq::empty()
    } else {
        let last = commands.last();
        let init = said_to(commands.drop_last(), target);
        if last.verb == "PRIVMSG"@ && last.params.len() == 2 && last.params[0] == target {
            init + last.params[1]
        } else {
            init
        }
    }
}

/// What commands say goes command by command.
pub proof fn lemma_said_both(a: Seq<CommandV>, b: Seq<CommandV>, target: Seq<char>)
    ensures
        said_to(a + b, target) == said_to(a, target) + said_to(b, target),
    decreases b.len(),
{
    if b.len() == 0 {
        assert(a + b =~= a);
        assert(said_to(a, target) + said_to(b, target) =~= said_to(a, target));
    } else {
        assert((a + b).drop_last() =~= a + b.drop_last());
        assert((a + b).last() == b.last());
        lemma_said_both(a, b.drop_last(), target);
        assert(said_to(a + b, target) =~= said_to(a, target) + said_to(b, target));
    }
}

/// Messages say their lines.
pub proof fn lemma_said_lines(target: Seq<char>, lines: Seq<Seq<char>>)
    ensures
        said_to(privmsgs(target, lines), target) == glued(lines),
    decreases lines.len(),
{
    let all = privmsgs(target, lines);
    if lines.len() > 0 {
        lemma_said_lines(target, lines.drop_last());
        assert(all.drop_last() =~= privmsgs(target, lines.drop_last()));
        assert(all.last() == privmsg_v(target, lines.last()));
    }
}

/// Commands of other kinds say nothing.
pub proof fn lemma_said_nothing(commands: Seq<CommandV>, target: Seq<char>)
    requires
        forall|i: int| 0 <= i < commands.len() ==> (#[trigger] commands[i]).verb != "PRIVMSG"@,
    ensures
        said_to(commands, target) == Seq::<char>::empty(),
    decreases commands.len(),
{
    if commands.len() > 0 {
        let rest = commands.drop_last();
        assert(commands[commands.len() - 1].verb != "PRIVMSG"@);
        assert forall|i: int| 0 <= i < rest.len() implies (#[trigger] rest[i]).verb != "PRIVMSG"@ by {
            assert(rest[i] == commands[i]);
        }
        lemma_said_nothing(rest, target);
    }
}

} // verus!
