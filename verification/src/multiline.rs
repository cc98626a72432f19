//! Messages of several lines in one batch.
use vstd::prelude::*;

use crate::text::{char_len, chars_of, join_seq, lemma_some_piece, pieces, split, text_bytes, texts};
use crate::wire::{
    chunks, chunks_keep_the_text, command1, command2, command3, command_views, cut_line, glued,
    lemma_chunks_fit, lemma_glued_one, lemma_glued_pieces, tag_views, untagged, Command, CommandV, Tag, TagV,
    MESSAGE_MAX_BYTES,
};

verus! {

broadcast use vstd::string::group_string_axioms;

/// What a server takes in one batch.
#[derive(Clone, Copy, Debug, PartialEq, Eq, Structural)]
pub struct Limits {
    pub max_bytes: u64,
    pub max_lines: u64,
}

/// One message of a batch; a joined one continues the line before it.
#[derive(Debug)]
pub struct BatchLine {
    pub text: String,
    pub joined: bool,
}

/// The model of a [`BatchLine`].
pub struct BatchLineV {
    pub text: Seq<char>,
    pub joined: bool,
}

impl View for BatchLine {
    type V = BatchLineV;

    open spec fn view(&self) -> BatchLineV {
        BatchLineV { text: self.text@, joined: self.joined }
    }
}

/// The models of the lines of a batch.
pub open spec fn line_views(v: Seq<BatchLine>) -> Seq<BatchLineV> {
    v.map_values(|l: BatchLine| l@)
}

/// The models of a list of batches.
pub open spec fn batch_views(v: Seq<Vec<BatchLine>>) -> Seq<Seq<BatchLineV>> {
    v.map_values(|b: Vec<BatchLine>| line_views(b@))
}

/// Whether a text does not fit into one message.
pub open spec fn needs_lines(text: Seq<char>) -> bool {
    text.contains('\n') || text_bytes(text) > MESSAGE_MAX_BYTES
}

/// The messages that one line takes.
pub open spec fn line_parts(line: Seq<char>) -> Seq<BatchLineV> {
    if line.len() == 0 {
        seq![BatchLineV { text: line, joined: false }]
    } else {
        Seq::new(
            chunks(line, MESSAGE_MAX_BYTES as nat).len(),
            |i: int|
                BatchLineV { text: chunks(line, MESSAGE_MAX_BYTES as nat)[i], joined: i > 0 },
        )
    }
}

/// The bytes of the texts of a batch.
pub open spec fn batch_bytes(lines: Seq<BatchLineV>) -> nat
    decreases lines.len(),
{
    if lines.len() == 0 {
        0
    } else {
        batch_bytes(lines.drop_last()) + text_bytes(lines.last().text)
    }
}

/// The batches after one more message: the last one takes it while it has room.
pub open spec fn grown(batches: Seq<Seq<BatchLineV>>, part: BatchLineV, limits: Limits) -> Seq<
    Seq<BatchLineV>,
> {
    if batches.len() > 0 && batches.last().len() < limits.max_lines && batch_bytes(batches.last())
        + text_bytes(part.text) <= limits.max_bytes {
        batches.update(batches.len() - 1, batches.last().push(part))
    } else {
        batches.push(seq![BatchLineV { text: part.text, joined: false }])
    }
}

/// The batches after some more messages.
pub open spec fn grown_by(
    batches: Seq<Seq<BatchLineV>>,
    parts: Seq<BatchLineV>,
    limits: Limits,
) -> Seq<Seq<BatchLineV>>
    decreases parts.len(),
{
    if parts.len() == 0 {
        batches
    } else {
        grown(grown_by(batches, parts.drop_last(), limits), parts.last(), limits)
    }
}

/// The batches that some lines take.
pub open spec fn batched(lines: Seq<Seq<char>>, limits: Limits) -> Seq<Seq<BatchLineV>>
    decreases lines.len(),
{
    if lines.len() == 0 {
        Seq::empty()
    } else {
        grown_by(batched(lines.drop_last(), limits), line_parts(lines.last()), limits)
    }
}

/// The batches that a text takes, where the server's limits leave room for a full message.
pub open spec fn partitioned(text: Seq<char>, limits: Limits) -> Option<Seq<Seq<BatchLineV>>> {
    if limits.max_lines == 0 || limits.max_bytes < MESSAGE_MAX_BYTES {
        None
    } else {
        Some(batched(pieces(text, '\n'), limits))
    }
}

/// The text that a batch stands for.
pub open spec fn reassembled(lines: Seq<BatchLineV>) -> Seq<char>
    decreases lines.len(),
{
    if lines.len() == 0 {
        Seq::empty()
    } else if lines.len() == 1 {
        lines[0].text
    } else if lines.last().joined {
        reassembled(lines.drop_last()) + lines.last().text
    } else {
        reassembled(lines.drop_last()) + seq!['\n'] + lines.last().text
    }
}

/// One message of a batch on the wire.
pub open spec fn line_frame(target: Seq<char>, batch_ref: Seq<char>, line: BatchLineV) -> CommandV {
    let batch = TagV { key: "batch"@, value: Some(batch_ref) };
    CommandV {
        tags: if line.joined {
            seq![batch, TagV { key: "draft/multiline-concat"@, value: None }]
        } else {
            seq![batch]
        },
        verb: "PRIVMSG"@,
        params: seq![target, line.text],
    }
}

/// A batch on the wire: its opening, its messages, its end.
pub open spec fn frames(target: Seq<char>, batch_ref: Seq<char>, lines: Seq<BatchLineV>) -> Seq<
    CommandV,
> {
    seq![untagged("BATCH"@, seq![seq!['+'] + batch_ref, "draft/multiline"@, target])]
        + lines.map_values(|l: BatchLineV| line_frame(target, batch_ref, l)) + seq![
        untagged("BATCH"@, seq![seq!['-'] + batch_ref]),
    ]
}

/// Whether a text does not fit into one message.
pub fn needs_multiline(text: &str) -> (r: bool)
    ensures
        r == needs_lines(text@),
{
    let v = chars_of(text);
    let mut bytes: usize = 0;
    let mut i: usize = 0;
    assert(v@.take(0) =~= Seq::<char>::empty());
    while i < v.len()
        invariant
            v@ == text@,
            i <= v@.len(),
            bytes == text_bytes(v@.take(i as int)),
            bytes <= MESSAGE_MAX_BYTES,
            forall|j: int| 0 <= j < i ==> v@[j] != '\n',
        decreases v@.len() - i,
    {
        if v[i] == '\n' {
            assert(text@.contains('\n'));
            return true;
        }
        assert(v@.take(i + 1).drop_last() =~= v@.take(i as int));
        assert(v@.take(i + 1).last() == v@[i as int]);
        bytes = bytes + char_len(v[i]);
        i = i + 1;
        if bytes > MESSAGE_MAX_BYTES {
            proof {
                lemma_bytes_grow(v@, i as int);
            }
            return true;
        }
    }
    assert(v@.take(v@.len() as int) =~= v@);
    false
}

/// A text takes at least the bytes of each of its beginnings.
pub proof fn lemma_bytes_grow(s: Seq<char>, k: int)
    requires
        0 <= k <= s.len(),
    ensures
        text_bytes(s.take(k)) <= text_bytes(s),
    decreases s.len() - k,
{
    if k == s.len() {
        assert(s.take(k) =~= s);
    } else {
        assert(s.take(k + 1).drop_last() =~= s.take(k));
        lemma_bytes_grow(s, k + 1);
    }
}

/// The bytes of a text that fits into one message.
fn bytes_of(text: &str) -> (r: usize)
    requires
        text_bytes(text@) <= MESSAGE_MAX_BYTES,
    ensures
        r == text_bytes(text@),
{
    let v = chars_of(text);
    let mut bytes: usize = 0;
    let mut i: usize = 0;
    assert(v@.take(0) =~= Seq::<char>::empty());
    while i < v.len()
        invariant
            v@ == text@,
            i <= v@.len(),
            text_bytes(v@) <= MESSAGE_MAX_BYTES,
            bytes == text_bytes(v@.take(i as int)),
        decreases v@.len() - i,
    {
        assert(v@.take(i + 1).drop_last() =~= v@.take(i as int));
        assert(v@.take(i + 1).last() == v@[i as int]);
        proof {
            lemma_bytes_grow(v@, i + 1);
        }
        bytes = bytes + char_len(v[i]);
        i = i + 1;
    }
    assert(v@.take(v@.len() as int) =~= v@);
    bytes
}

/// The messages that one line takes.
fn cut(line: &str) -> (r: Vec<BatchLine>)
    ensures
        line_views(r@) == line_parts(line@),
        forall|i: int| 0 <= i < r@.len() ==> text_bytes((#[trigger] r@[i]).text@) <= MESSAGE_MAX_BYTES,
{
    let mut r: Vec<BatchLine> = Vec::new();
    if line.is_empty() {
        let part = BatchLine { text: line.to_string(), joined: false };
        assert(part.text@ =~= Seq::<char>::empty());
        r.push(part);
        assert(line_views(r@) =~= line_parts(line@));
        return r;
    }
    let parts = cut_line(line, MESSAGE_MAX_BYTES);
    let ghost all = chunks(line@, MESSAGE_MAX_BYTES as nat);
    proof {
        lemma_chunks_fit(line@, MESSAGE_MAX_BYTES as nat);
        assert(texts(parts@).len() == parts@.len());
    }
    let mut i: usize = 0;
    while i < parts.len()
        invariant
            i <= parts@.len(),
            r@.len() == i,
            texts(parts@) == all,
            all == chunks(line@, MESSAGE_MAX_BYTES as nat),
            forall|k: int| 0 <= k < all.len() ==> text_bytes(#[trigger] all[k]) <= MESSAGE_MAX_BYTES,
            forall|k: int|
                0 <= k < i ==> (#[trigger] r@[k])@ == (BatchLineV { text: all[k], joined: k > 0 }),
        decreases parts@.len() - i,
    {
        let part = BatchLine { text: parts[i].clone(), joined: i > 0 };
        assert(all[i as int] == parts@[i as int]@);
        r.push(part);
        i = i + 1;
    }
    assert(line_views(r@) =~= line_parts(line@));
    assert forall|k: int| 0 <= k < r@.len() implies text_bytes((#[trigger] r@[k]).text@)
        <= MESSAGE_MAX_BYTES by {
        assert(r@[k]@.text == all[k]);
    }
    r
}

/// Puts one message into the last batch, or into a new one.
fn grow(batches: &mut Vec<Vec<BatchLine>>, bytes: u64, part: BatchLine, limits: Limits) -> (r: u64)
    requires
        old(batches)@.len() > 0 ==> bytes == batch_bytes(line_views(old(batches)@.last()@)),
        bytes <= limits.max_bytes,
        text_bytes(part.text@) <= MESSAGE_MAX_BYTES,
        limits.max_bytes >= MESSAGE_MAX_BYTES,
        limits.max_lines > 0,
    ensures
        batch_views(final(batches)@) == grown(batch_views(old(batches)@), part@, limits),
        final(batches)@.len() > 0,
        r == batch_bytes(line_views(final(batches)@.last()@)),
        r <= limits.max_bytes,
{
    let size: u64 = bytes_of(part.text.as_str()) as u64;
    let n: usize = batches.len();
    let ghost before = batches@;
    let ghost views = batch_views(batches@);
    let ghost p = part@;
    if n > 0 && (batches[n - 1].len() as u64) < limits.max_lines && size <= limits.max_bytes - bytes {
        let mut last = batches.remove(n - 1);
        let ghost lines = last@;
        last.push(part);
        let ghost grown_last = last@;
        assert(line_views(grown_last) =~= line_views(lines).push(p));
        batches.push(last);
        proof {
            assert(views.last() == line_views(lines));
            assert(line_views(grown_last).drop_last() =~= line_views(lines));
            assert(batch_views(batches@) =~= views.update(views.len() - 1, views.last().push(p)));
        }
        bytes + size
    } else {
        let mut fresh: Vec<BatchLine> = Vec::new();
        let BatchLine { text, joined: _ } = part;
        fresh.push(BatchLine { text, joined: false });
        let ghost one = seq![BatchLineV { text: p.text, joined: false }];
        assert(line_views(fresh@) =~= one);
        batches.push(fresh);
        proof {
            assert(batch_views(batches@) =~= views.push(one));
            assert(one.drop_last() =~= Seq::<BatchLineV>::empty());
            assert(batch_bytes(one) == text_bytes(p.text)) by {
                reveal_with_fuel(batch_bytes, 2);
            }
            assert(n > 0 ==> views.last() == line_views(before.last()@));
            assert(n > 0 ==> views.last().len() == before.last()@.len());
        }
        size
    }
}

/// The batches that a text takes, where the server's limits leave room for a full message.
pub fn partition(text: &str, limits: Limits) -> (r: Option<Vec<Vec<BatchLine>>>)
    ensures
        match r {
            Some(batches) => partitioned(text@, limits) == Some(batch_views(batches@)),
            None => partitioned(text@, limits) is None,
        },
{
    if limits.max_lines == 0 || limits.max_bytes < MESSAGE_MAX_BYTES as u64 {
        return None;
    }
    let lines = split(text, '\n');
    let mut batches: Vec<Vec<BatchLine>> = Vec::new();
    let mut bytes: u64 = 0;
    let mut i: usize = 0;
    let ghost all = texts(lines@);
    assert(all.take(0) =~= Seq::<Seq<char>>::empty());
    assert(batch_views(batches@) =~= Seq::<Seq<BatchLineV>>::empty());
    while i < lines.len()
        invariant
            i <= lines@.len(),
            all == texts(lines@),
            limits.max_lines > 0,
            limits.max_bytes >= MESSAGE_MAX_BYTES,
            batch_views(batches@) == batched(all.take(i as int), limits),
            batches@.len() > 0 ==> bytes == batch_bytes(line_views(batches@.last()@)),
            bytes <= limits.max_bytes,
        decreases lines@.len() - i,
    {
        let mut parts = cut(lines[i].as_str());
        let ghost start = batch_views(batches@);
        let ghost views = line_views(parts@);
        let ghost n = parts@.len();
        let ghost mut done: int = 0;
        assert(views.take(0) =~= Seq::<BatchLineV>::empty());
        while parts.len() > 0
            invariant
                0 <= done <= n,
                views.len() == n,
                limits.max_lines > 0,
                limits.max_bytes >= MESSAGE_MAX_BYTES,
                line_views(parts@) == views.skip(done),
                parts@.len() == n - done,
                forall|k: int|
                    0 <= k < parts@.len() ==> text_bytes((#[trigger] parts@[k]).text@) <= MESSAGE_MAX_BYTES,
                batch_views(batches@) == grown_by(start, views.take(done), limits),
                batches@.len() > 0 ==> bytes == batch_bytes(line_views(batches@.last()@)),
                bytes <= limits.max_bytes,
            decreases parts@.len(),
        {
            assert(line_views(parts@)[0] == parts@[0]@);
            assert(views.skip(done)[0] == views[done]);
            let ghost was = parts@;
            let part = parts.remove(0);
            assert(parts@ =~= was.skip(1));
            proof {
                assert(line_views(parts@) =~= views.skip(done + 1)) by {
                    assert forall|k: int| 0 <= k < parts@.len() implies line_views(parts@)[k] == views.skip(
                        done + 1,
                    )[k] by {
                        assert(line_views(was)[k + 1] == views.skip(done)[k + 1]);
                    }
                }
                assert forall|k: int| 0 <= k < parts@.len() implies text_bytes((#[trigger] parts@[k]).text@)
                    <= MESSAGE_MAX_BYTES by {
                    assert(parts@[k] == was[k + 1]);
                }
                assert(views.take(done + 1).drop_last() =~= views.take(done));
            }
            bytes = grow(&mut batches, bytes, part, limits);
            proof {
                done = done + 1;
            }
        }
        assert(views.take(n as int) =~= views);
        assert(all.take(i + 1).drop_last() =~= all.take(i as int));
        i = i + 1;
    }
    assert(all.take(all.len() as int) =~= all);
    Some(batches)
}

/// The text that a batch stands for.
pub fn reassemble(lines: &Vec<BatchLine>) -> (r: String)
    ensures
        r@ == reassembled(line_views(lines@)),
{
    let ghost all = line_views(lines@);
    let mut r = String::new();
    let mut i: usize = 0;
    assert(all.take(0) =~= Seq::<BatchLineV>::empty());
    while i < lines.len()
        invariant
            i <= lines@.len(),
            all == line_views(lines@),
            r@ == reassembled(all.take(i as int)),
        decreases lines@.len() - i,
    {
        proof {
            assert(all.take(i + 1).drop_last() =~= all.take(i as int));
            assert(all.take(i + 1).last() == lines@[i as int]@);
            assert(all.take(1)[0] == all[0]);
        }
        if i > 0 && !lines[i].joined {
            r.push('\n');
        }
        let ghost with_break = r@;
        r.append(lines[i].text.as_str());
        proof {
            if i == 0 {
                assert(r@ =~= lines@[0].text@);
            } else {
                assert(r@ =~= reassembled(all.take(i + 1)));
            }
        }
        i = i + 1;
    }
    assert(all.take(all.len() as int) =~= all);
    r
}

/// One message of a batch on the wire.
fn frame(target: &str, batch_ref: &str, line: &BatchLine) -> (r: Command)
    ensures
        r@ == line_frame(target@, batch_ref@, line@),
{
    let mut r = command2("PRIVMSG", target, line.text.as_str());
    assert(tag_views(r.tags@).len() == r.tags@.len());
    r.tags.push(Tag { key: "batch".to_string(), value: Some(batch_ref.to_string()) });
    if line.joined {
        r.tags.push(Tag { key: "draft/multiline-concat".to_string(), value: None });
    }
    assert(r@ =~= line_frame(target@, batch_ref@, line@)) by {
        assert(tag_views(r.tags@) =~= line_frame(target@, batch_ref@, line@).tags);
    }
    r
}

/// A batch on the wire.
pub fn multiline_frames(target: &str, batch_ref: &str, lines: &Vec<BatchLine>) -> (r: Vec<Command>)
    ensures
        command_views(r@) == frames(target@, batch_ref@, line_views(lines@)),
{
    let mut r: Vec<Command> = Vec::new();
    let mut open = String::new();
    open.push('+');
    open.append(batch_ref);
    assert(open@ =~= seq!['+'] + batch_ref@);
    r.push(command3("BATCH", open.as_str(), "draft/multiline", target));
    let ghost all = frames(target@, batch_ref@, line_views(lines@));
    let mut i: usize = 0;
    while i < lines.len()
        invariant
            i <= lines@.len(),
            r@.len() == i + 1,
            all == frames(target@, batch_ref@, line_views(lines@)),
            forall|k: int| 0 <= k <= i ==> (#[trigger] r@[k])@ == all[k],
        decreases lines@.len() - i,
    {
        let f = frame(target, batch_ref, &lines[i]);
        assert(f@ == all[i + 1]);
        r.push(f);
        i = i + 1;
    }
    let mut close = String::new();
    close.push('-');
    close.append(batch_ref);
    assert(close@ =~= seq!['-'] + batch_ref@);
    r.push(command1("BATCH", close.as_str()));
    assert(command_views(r@) =~= all);
    r
}

/// The texts of all lines of some batches, one behind the other.
pub open spec fn batched_text(batches: Seq<Seq<BatchLineV>>) -> Seq<char>
    decreases batches.len(),
{
    if batches.len() == 0 {
        Seq::empty()
    } else {
        batched_text(batches.drop_last()) + glued(batches.last().map_values(|l: BatchLineV| l.text))
    }
}

proof fn lemma_grown(batches: Seq<Seq<BatchLineV>>, part: BatchLineV, limits: Limits)
    ensures
        batched_text(grown(batches, part, limits)) == batched_text(batches) + part.text,
{
    let f = |l: BatchLineV| l.text;
    let after = grown(batches, part, limits);
    if batches.len() > 0 && batches.last().len() < limits.max_lines && batch_bytes(batches.last())
        + text_bytes(part.text) <= limits.max_bytes {
        assert(after.drop_last() =~= batches.drop_last());
        let was = batches.last().map_values(f);
        let now = after.last().map_values(f);
        assert(now.drop_last() =~= was);
        assert(now.last() == part.text);
        assert(batched_text(after) =~= batched_text(batches) + part.text);
    } else {
        assert(after.drop_last() =~= batches);
        let now = after.last().map_values(f);
        assert(now.drop_last() =~= Seq::<Seq<char>>::empty());
        assert(now.last() == part.text);
        assert(glued(now.drop_last()) =~= Seq::<char>::empty());
        assert(glued(now) =~= part.text);
    }
}

proof fn lemma_grown_by(batches: Seq<Seq<BatchLineV>>, parts: Seq<BatchLineV>, limits: Limits)
    ensures
        batched_text(grown_by(batches, parts, limits)) == batched_text(batches) + glued(
            parts.map_values(|l: BatchLineV| l.text),
        ),
    decreases parts.len(),
{
    let f = |l: BatchLineV| l.text;
    if parts.len() == 0 {
        assert(glued(parts.map_values(f)) =~= Seq::<char>::empty());
        assert(batched_text(batches) + glued(parts.map_values(f)) =~= batched_text(batches));
    } else {
        lemma_grown_by(batches, parts.drop_last(), limits);
        lemma_grown(grown_by(batches, parts.drop_last(), limits), parts.last(), limits);
        assert(parts.map_values(f).drop_last() =~= parts.drop_last().map_values(f));
        assert(batched_text(grown_by(batches, parts, limits)) =~= batched_text(batches) + glued(
            parts.map_values(f),
        ));
    }
}

proof fn lemma_batched(lines: Seq<Seq<char>>, limits: Limits)
    ensures
        batched_text(batched(lines, limits)) == glued(lines),
    decreases lines.len(),
{
    if lines.len() > 0 {
        let f = |l: BatchLineV| l.text;
        let init = lines.drop_last();
        let parts = line_parts(lines.last());
        lemma_batched(init, limits);
        lemma_grown_by(batched(init, limits), parts, limits);
        if lines.last().len() == 0 {
            lemma_glued_one(lines.last());
            assert(parts.map_values(f) =~= seq![lines.last()]);
        } else {
            assert(parts.map_values(f) =~= chunks(lines.last(), MESSAGE_MAX_BYTES as nat));
            chunks_keep_the_text(lines.last(), MESSAGE_MAX_BYTES as nat);
        }
    }
}

/// The batches that a text goes out in hold the text, from its first character to its last, without its
/// line breaks.
pub proof fn batches_keep_the_text(text: Seq<char>, limits: Limits)
    requires
        partitioned(text, limits) is Some,
    ensures
        batched_text(partitioned(text, limits)->0) == text.filter(|c: char| c != '\n'),
{
    lemma_batched(pieces(text, '\n'), limits);
    lemma_glued_pieces(text, '\n');
}

/// The pieces of a text with line breaks between them are the text.
pub proof fn lemma_rejoined(s: Seq<char>)
    ensures
        join_seq(pieces(s, '\n'), seq!['\n']) == s,
    decreases s.len(),
{
    if s.len() == 0 {
        assert(join_seq(pieces(s, '\n'), seq!['\n']) =~= s);
    } else {
        let rest = s.drop_last();
        let init = pieces(rest, '\n');
        let all = pieces(s, '\n');
        lemma_some_piece(rest, '\n');
        lemma_rejoined(rest);
        if s.last() == '\n' {
            assert(all.drop_last() =~= init);
            assert(join_seq(all, seq!['\n']) =~= rest + seq!['\n'] + Seq::<char>::empty());
            assert(join_seq(all, seq!['\n']) =~= s);
        } else {
            assert(all.drop_last() =~= init.drop_last());
            assert(join_seq(all, seq!['\n']) =~= join_seq(init, seq!['\n']).push(s.last()));
            assert(join_seq(all, seq!['\n']) =~= s);
        }
    }
}

/// A batch that only grew stands for what it stood for and then the rest.
proof fn lemma_one_batch(
    lines: Seq<BatchLineV>,
    parts: Seq<BatchLineV>,
    k: int,
)
    requires
        0 <= k <= parts.len(),
        parts.len() > 0,
        !parts[0].joined,
        forall|i: int| 0 < i < parts.len() ==> (#[trigger] parts[i]).joined,
    ensures
        k > 0 ==> reassembled(lines + parts.take(k)) == (if lines.len() == 0 {
            Seq::empty()
        } else {
            reassembled(lines) + seq!['\n']
        }) + glued(parts.take(k).map_values(|l: BatchLineV| l.text)),
    decreases k,
{
    let f = |l: BatchLineV| l.text;
    let start = if lines.len() == 0 {
        Seq::empty()
    } else {
        reassembled(lines) + seq!['\n']
    };
    if k > 0 {
        let head = parts.take(k);
        let all = lines + head;
        lemma_one_batch(lines, parts, k - 1);
        assert(head.drop_last() =~= parts.take(k - 1));
        assert(all.drop_last() =~= lines + parts.take(k - 1));
        assert(all.last() == parts[k - 1]);
        assert(head.map_values(f).drop_last() =~= parts.take(k - 1).map_values(f));
        assert(head.map_values(f).last() == parts[k - 1].text);
        if k == 1 {
            assert(parts.take(0) =~= Seq::<BatchLineV>::empty());
            assert(parts.take(0).map_values(f) =~= Seq::<Seq<char>>::empty());
            assert(all.drop_last() =~= lines);
            if lines.len() == 0 {
                assert(all.len() == 1 && all[0] == parts[0]);
                assert(reassembled(all) =~= start + glued(head.map_values(f)));
            } else {
                assert(reassembled(all) =~= start + glued(head.map_values(f)));
            }
        } else {
            assert(parts[k - 1].joined);
            assert(all.len() > 1);
            assert(reassembled(all) =~= start + glued(head.map_values(f)));
        }
    }
}

/// A batch that is still the only one took all parts.
proof fn lemma_only_batch(batches: Seq<Seq<BatchLineV>>, parts: Seq<BatchLineV>, limits: Limits)
    requires
        parts.len() > 0,
        !parts[0].joined,
        grown_by(batches, parts, limits).len() == 1,
    ensures
        batches.len() <= 1,
        grown_by(batches, parts, limits)[0] == (if batches.len() == 0 {
            Seq::empty()
        } else {
            batches[0]
        }) + parts,
    decreases parts.len(),
{
    let rest = parts.drop_last();
    let before = grown_by(batches, rest, limits);
    let after = grown_by(batches, parts, limits);
    let start = if batches.len() == 0 {
        Seq::empty()
    } else {
        batches[0]
    };
    if rest.len() == 0 {
        assert(before == batches);
        assert(parts =~= seq![parts[0]]);
        if batches.len() > 0 {
            assert(after[0] == batches[0].push(parts[0]));
            assert(after[0] =~= start + parts);
        } else {
            assert(after[0] == seq![BatchLineV { text: parts[0].text, joined: false }]);
            assert(after[0] =~= start + parts);
        }
    } else {
        lemma_grown_count(batches, rest, limits);
        assert(before.len() == 1);
        assert(rest[0] == parts[0]);
        lemma_only_batch(batches, rest, limits);
        assert(after[0] == before[0].push(parts.last()));
        assert(after[0] =~= start + parts);
    }
}

/// Batches never get fewer, and there is one once there was a part.
proof fn lemma_grown_count(batches: Seq<Seq<BatchLineV>>, parts: Seq<BatchLineV>, limits: Limits)
    ensures
        grown_by(batches, parts, limits).len() >= batches.len(),
        parts.len() > 0 ==> grown_by(batches, parts, limits).len() >= 1,
    decreases parts.len(),
{
    if parts.len() > 0 {
        lemma_grown_count(batches, parts.drop_last(), limits);
    }
}

/// The parts of a line are one line.
proof fn lemma_line_parts(line: Seq<char>)
    ensures
        line_parts(line).len() > 0,
        !line_parts(line)[0].joined,
        forall|i: int| 0 < i < line_parts(line).len() ==> (#[trigger] line_parts(line)[i]).joined,
        glued(line_parts(line).map_values(|l: BatchLineV| l.text)) == line,
{
    let f = |l: BatchLineV| l.text;
    let parts = line_parts(line);
    if line.len() == 0 {
        lemma_glued_one(line);
        assert(parts.map_values(f) =~= seq![line]);
    } else {
        assert(parts.map_values(f) =~= chunks(line, MESSAGE_MAX_BYTES as nat));
        chunks_keep_the_text(line, MESSAGE_MAX_BYTES as nat);
    }
}

proof fn lemma_batch_of_lines(lines: Seq<Seq<char>>, limits: Limits)
    requires
        batched(lines, limits).len() == 1,
    ensures
        lines.len() > 0,
        batched(lines, limits)[0].len() > 0,
        reassembled(batched(lines, limits)[0]) == join_seq(lines, seq!['\n']),
    decreases lines.len(),
{
    let f = |l: BatchLineV| l.text;
    let init = lines.drop_last();
    let before = batched(init, limits);
    let parts = line_parts(lines.last());
    lemma_line_parts(lines.last());
    lemma_only_batch(before, parts, limits);
    assert(parts.take(parts.len() as int) =~= parts);
    if init.len() == 0 {
        assert(before =~= Seq::<Seq<BatchLineV>>::empty());
        lemma_one_batch(Seq::empty(), parts, parts.len() as int);
        assert(Seq::<char>::empty() + lines.last() =~= lines.last());
    } else {
        let last = line_parts(init.last());
        lemma_line_parts(init.last());
        lemma_grown_count(batched(init.drop_last(), limits), last, limits);
        assert(before.len() == 1);
        lemma_batch_of_lines(init, limits);
        lemma_one_batch(before[0], parts, parts.len() as int);
    }
}

/// A text that goes out in one batch is read from it as it was, with its line breaks.
pub proof fn one_batch_is_the_text(text: Seq<char>, limits: Limits)
    requires
        partitioned(text, limits) is Some,
        partitioned(text, limits)->0.len() == 1,
    ensures
        reassembled(partitioned(text, limits)->0[0]) == text,
{
    lemma_batch_of_lines(pieces(text, '\n'), limits);
    lemma_rejoined(text);
}

/// No batch is larger than the server takes, none is empty, and none starts in the middle of what another
/// one left.
pub proof fn batches_keep_the_limits(text: Seq<char>, limits: Limits, i: int)
    requires
        partitioned(text, limits) is Some,
        0 <= i < partitioned(text, limits)->0.len(),
    ensures
        0 < partitioned(text, limits)->0[i].len() <= limits.max_lines,
        batch_bytes(partitioned(text, limits)->0[i]) <= limits.max_bytes,
        !partitioned(text, limits)->0[i][0].joined,
{
    lemma_limits(pieces(text, '\n'), limits);
    assert(kept_limits(batched(pieces(text, '\n'), limits)[i], limits));
}

/// A batch keeps the limits.
pub open spec fn kept_limits(b: Seq<BatchLineV>, limits: Limits) -> bool {
    &&& 0 < b.len() <= limits.max_lines
    &&& batch_bytes(b) <= limits.max_bytes
    &&& !b[0].joined
}

proof fn lemma_limits_by(batches: Seq<Seq<BatchLineV>>, parts: Seq<BatchLineV>, limits: Limits)
    requires
        limits.max_lines > 0,
        limits.max_bytes >= MESSAGE_MAX_BYTES,
        forall|i: int| 0 <= i < batches.len() ==> #[trigger] kept_limits(batches[i], limits),
        forall|i: int| 0 <= i < parts.len() ==> text_bytes((#[trigger] parts[i]).text) <= MESSAGE_MAX_BYTES,
    ensures
        forall|i: int|
            0 <= i < grown_by(batches, parts, limits).len() ==> #[trigger] kept_limits(
                grown_by(batches, parts, limits)[i],
                limits,
            ),
    decreases parts.len(),
{
    if parts.len() > 0 {
        let rest = parts.drop_last();
        assert forall|i: int| 0 <= i < rest.len() implies text_bytes((#[trigger] rest[i]).text)
            <= MESSAGE_MAX_BYTES by {
            assert(rest[i] == parts[i]);
        }
        lemma_limits_by(batches, rest, limits);
        let before = grown_by(batches, rest, limits);
        let after = grown_by(batches, parts, limits);
        let part = parts.last();
        assert(text_bytes(parts[parts.len() - 1].text) <= MESSAGE_MAX_BYTES);
        let one = seq![BatchLineV { text: part.text, joined: false }];
        assert(one.drop_last() =~= Seq::<BatchLineV>::empty());
        assert(batch_bytes(one) == text_bytes(part.text)) by {
            reveal_with_fuel(batch_bytes, 2);
        }
        assert forall|i: int| 0 <= i < after.len() implies #[trigger] kept_limits(after[i], limits) by {
            if i < before.len() {
                assert(kept_limits(before[i], limits));
            }
            if before.len() > 0 {
                assert(kept_limits(before[before.len() - 1], limits));
                assert(before.last().push(part).drop_last() =~= before.last());
            }
        }
    }
}

proof fn lemma_limits(lines: Seq<Seq<char>>, limits: Limits)
    requires
        limits.max_lines > 0,
        limits.max_bytes >= MESSAGE_MAX_BYTES,
    ensures
        forall|i: int|
            0 <= i < batched(lines, limits).len() ==> #[trigger] kept_limits(batched(lines, limits)[i], limits),
    decreases lines.len(),
{
    if lines.len() > 0 {
        lemma_limits(lines.drop_last(), limits);
        let parts = line_parts(lines.last());
        lemma_chunks_fit(lines.last(), MESSAGE_MAX_BYTES as nat);
        assert forall|i: int| 0 <= i < parts.len() implies text_bytes((#[trigger] parts[i]).text)
            <= MESSAGE_MAX_BYTES by {
            if lines.last().len() > 0 {
                assert(parts[i].text == chunks(lines.last(), MESSAGE_MAX_BYTES as nat)[i]);
            }
        }
        lemma_limits_by(batched(lines.drop_last(), limits), parts, limits);
    }
}

} // verus!
