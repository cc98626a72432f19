//! Messages that belong together: open batches, nested ones, and what a completed one stands for.
use vstd::prelude::*;

use crate::collections::StrMap;
use crate::multiline::{
    batches_keep_the_limits, frames, line_frame, line_views, one_batch_is_the_text, partitioned, reassemble,
    reassembled, BatchLine, BatchLineV, Limits,
};
use crate::text::{chars_of, has_char, lower, lower_seq, same, texts};
use crate::wire::{tag_views, Command, CommandV, Tag, TagV};

verus! {

broadcast use vstd::string::group_string_axioms;

/// The most messages that a batch keeps.
pub const BATCH_MAX: usize = 4096;

/// How long a batch may stay open, in milliseconds.
pub const BATCH_MS: u64 = 60_000;

/// Who sent a message.
#[derive(Debug)]
pub struct Source {
    pub nick: String,
    pub ident: String,
    pub host: String,
}

/// The model of a [`Source`].
pub struct SourceV {
    pub nick: Seq<char>,
    pub ident: Seq<char>,
    pub host: Seq<char>,
}

/// A message from a server.
#[derive(Debug)]
pub struct IrcMessage {
    pub source: Option<Source>,
    pub command: Command,
}

/// The model of an [`IrcMessage`].
pub struct IrcMessageV {
    pub source: Option<SourceV>,
    pub command: CommandV,
}

impl View for IrcMessage {
    type V = IrcMessageV;

    open spec fn view(&self) -> IrcMessageV {
        IrcMessageV {
            source: match self.source {
                Some(s) => Some(SourceV { nick: s.nick@, ident: s.ident@, host: s.host@ }),
                None => None,
            },
            command: self.command@,
        }
    }
}

/// A message of a batch and its place on the wire.
#[derive(Debug)]
pub struct Numbered {
    pub order: u64,
    pub message: IrcMessage,
}

/// The model of a [`Numbered`].
pub struct NumberedV {
    pub order: u64,
    pub message: IrcMessageV,
}

impl View for Numbered {
    type V = NumberedV;

    open spec fn view(&self) -> NumberedV {
        NumberedV { order: self.order, message: self.message@ }
    }
}

/// The models of a list of messages.
pub open spec fn numbered_views(v: Seq<Numbered>) -> Seq<NumberedV> {
    v.map_values(|n: Numbered| n@)
}

/// The models of a list of messages.
pub open spec fn message_views(v: Seq<IrcMessage>) -> Seq<IrcMessageV> {
    v.map_values(|m: IrcMessage| m@)
}

/// The messages without their places.
pub open spec fn plain(v: Seq<NumberedV>) -> Seq<IrcMessageV> {
    v.map_values(|n: NumberedV| n.message)
}

/// An open or completed batch.
#[derive(Debug)]
pub struct BatchInfo {
    /// The type, in lower case.
    pub kind: String,
    pub params: Vec<String>,
    /// The tags of the message that opened it.
    pub opener: Vec<Tag>,
    /// In the order of the wire.
    pub messages: Vec<Numbered>,
    /// How many messages did not fit.
    pub dropped: u64,
    /// When it was opened, in monotonic milliseconds.
    pub started_at: u64,
    /// It is not the whole of what the server meant: it was opened where it cannot count, or holds
    /// batch commands where there must be none.
    pub spoiled: bool,
}

/// The model of a [`BatchInfo`].
#[verifier::ext_equal]
pub struct BatchV {
    pub kind: Seq<char>,
    pub params: Seq<Seq<char>>,
    pub opener: Seq<TagV>,
    pub messages: Seq<NumberedV>,
    pub dropped: u64,
    pub started_at: u64,
    pub spoiled: bool,
}

impl View for BatchInfo {
    type V = BatchV;

    open spec fn view(&self) -> BatchV {
        BatchV {
            kind: self.kind@,
            params: texts(self.params@),
            opener: tag_views(self.opener@),
            messages: numbered_views(self.messages@),
            dropped: self.dropped,
            started_at: self.started_at,
            spoiled: self.spoiled,
        }
    }
}

/// The value of the first tag called `key` from `i` on.
pub open spec fn tag_from(tags: Seq<TagV>, key: Seq<char>, i: int) -> Option<Seq<char>>
    decreases tags.len() - i,
{
    if i >= tags.len() || i < 0 {
        None
    } else if tags[i].key == key {
        tags[i].value
    } else {
        tag_from(tags, key, i + 1)
    }
}

/// The value of the first tag called `key`.
pub open spec fn tag_value(tags: Seq<TagV>, key: Seq<char>) -> Option<Seq<char>> {
    tag_from(tags, key, 0)
}

/// The value of the first tag called `key`.
pub fn tag_text<'a>(tags: &'a Vec<Tag>, key: &str) -> (r: Option<&'a String>)
    ensures
        match r {
            Some(v) => tag_value(tag_views(tags@), key@) == Some(v@),
            None => tag_value(tag_views(tags@), key@) is None,
        },
{
    let ghost all = tag_views(tags@);
    let mut i: usize = 0;
    while i < tags.len()
        invariant
            i <= tags@.len(),
            all == tag_views(tags@),
            tag_value(all, key@) == tag_from(all, key@, i as int),
        decreases tags@.len() - i,
    {
        assert(all[i as int] == tags@[i as int]@);
        if same(tags[i].key.as_str(), key) {
            return match &tags[i].value {
                Some(v) => Some(v),
                None => None,
            };
        }
        i = i + 1;
    }
    None
}

/// A message was tagged with `key`.
pub open spec fn tagged(tags: Seq<TagV>, key: Seq<char>) -> bool {
    exists|i: int| 0 <= i < tags.len() && (#[trigger] tags[i]).key == key
}

/// Whether a message was tagged with `key`.
pub fn has_tag(tags: &Vec<Tag>, key: &str) -> (r: bool)
    ensures
        r == tagged(tag_views(tags@), key@),
{
    let ghost all = tag_views(tags@);
    let mut i: usize = 0;
    while i < tags.len()
        invariant
            i <= tags@.len(),
            all == tag_views(tags@),
            forall|j: int| 0 <= j < i ==> (#[trigger] all[j]).key != key@,
        decreases tags@.len() - i,
    {
        assert(all[i as int] == tags@[i as int]@);
        if same(tags[i].key.as_str(), key) {
            return true;
        }
        i = i + 1;
    }
    false
}

/// A sum that stops at its largest value.
pub open spec fn sum_up_to_max(a: u64, b: u64) -> u64 {
    if a + b > u64::MAX {
        u64::MAX
    } else {
        (a + b) as u64
    }
}

/// A list in the order of the wire with one message more; it goes behind those of the same place.
pub open spec fn placed(list: Seq<NumberedV>, x: NumberedV) -> Seq<NumberedV>
    decreases list.len(),
{
    if list.len() == 0 || list.last().order <= x.order {
        list.push(x)
    } else {
        placed(list.drop_last(), x).push(list.last())
    }
}

/// Where a message goes.
proof fn lemma_placed(list: Seq<NumberedV>, x: NumberedV, j: int)
    requires
        0 <= j <= list.len(),
        forall|k: int| j <= k < list.len() ==> (#[trigger] list[k]).order > x.order,
        j == 0 || list[j - 1].order <= x.order,
    ensures
        placed(list, x) == list.insert(j, x),
    decreases list.len(),
{
    if j == list.len() {
        assert(list.insert(j, x) =~= list.push(x));
    } else {
        let rest = list.drop_last();
        assert(list.last() == list[list.len() - 1]);
        lemma_placed(rest, x, j);
        assert(list.insert(j, x) =~= rest.insert(j, x).push(list.last()));
    }
}

/// A batch that was handed one message more: what does not fit is counted.
pub open spec fn taken(b: BatchV, x: NumberedV) -> BatchV {
    if b.messages.len() < BATCH_MAX {
        BatchV { messages: placed(b.messages, x), ..b }
    } else {
        BatchV { dropped: sum_up_to_max(b.dropped, 1), ..b }
    }
}

/// A batch that was handed messages, one after the other.
pub open spec fn all_taken(b: BatchV, items: Seq<NumberedV>) -> BatchV
    decreases items.len(),
{
    if items.len() == 0 {
        b
    } else {
        taken(all_taken(b, items.drop_last()), items.last())
    }
}

/// A batch that was handed the messages of another, which had dropped some itself.
pub open spec fn extended(b: BatchV, items: Seq<NumberedV>, dropped: u64) -> BatchV {
    let t = all_taken(b, items);
    BatchV { dropped: sum_up_to_max(t.dropped, dropped), ..t }
}

/// Whether the messages of a kind of batch are live: the others are history, searches, splits, and what
/// a server supports, which is taken up as a whole.
pub open spec fn live_kind(kind: Seq<char>) -> bool {
    &&& kind != "chathistory"@
    &&& kind != "netsplit"@
    &&& kind != "netjoin"@
    &&& kind != "draft/chathistory-targets"@
    &&& kind != "soju.im/search"@
    &&& kind != "draft/isupport"@
}

/// A batch that is opened with these tags cannot count as a whole: the batch around it is not open, is
/// not live, or does not count itself.
pub open spec fn opens_spoiled(open: Map<Seq<char>, BatchV>, opener: Seq<TagV>) -> bool {
    match tag_value(opener, "batch"@) {
        None => false,
        Some(parent) => !open.contains_key(parent) || !live_kind(open[parent].kind)
            || open[parent].spoiled,
    }
}

/// The open batches after a batch command: one inside what a server supports spoils that.
pub open spec fn spoil(open: Map<Seq<char>, BatchV>, c: CommandV) -> Map<Seq<char>, BatchV> {
    match tag_value(c.tags, "batch"@) {
        Some(parent) if open.contains_key(parent) && open[parent].kind == "draft/isupport"@ => open.insert(
            parent,
            BatchV { spoiled: true, ..open[parent] },
        ),
        _ => open,
    }
}

/// One statement of what a server supports: a name, with a value or without, or a name that is taken
/// back.
pub open spec fn supports_token(t: Seq<char>) -> bool {
    if t.len() > 0 && t[0] == '-' {
        t.len() > 1 && !t.contains('=')
    } else {
        t.len() > 0 && t[0] != '='
    }
}

/// Whether a text is one statement of what a server supports.
fn is_supports_token(t: &str) -> (r: bool)
    ensures
        r == supports_token(t@),
{
    let v = chars_of(t);
    if v.len() == 0 {
        return false;
    }
    if v[0] == '-' {
        v.len() > 1 && !has_char(t, '=')
    } else {
        v[0] != '='
    }
}

/// Where the statements of a reply end: words for people may stand behind them.
pub open spec fn tokens_end(params: Seq<Seq<char>>) -> int {
    if params.len() > 0 && params.last().contains(' ') {
        params.len() - 1
    } else {
        params.len() as int
    }
}

/// A reply that says what a server supports, and nothing else.
pub open spec fn supports_row(c: CommandV) -> bool {
    &&& c.verb == "005"@
    &&& tokens_end(c.params) > 1
    &&& forall|i: int| 1 <= i < tokens_end(c.params) ==> supports_token(#[trigger] c.params[i])
}

/// Whether a message says what a server supports, and nothing else.
fn is_supports_row(m: &IrcMessage) -> (r: bool)
    ensures
        r == supports_row(m@.command),
{
    let ghost all = m@.command.params;
    assert(all.len() == m.command.params@.len());
    if !same(m.command.verb.as_str(), "005") {
        return false;
    }
    let n: usize = m.command.params.len();
    if n == 0 {
        return false;
    }
    assert(all.last() == m.command.params@[n - 1]@);
    let end: usize = if has_char(m.command.params[n - 1].as_str(), ' ') {
        n - 1
    } else {
        n
    };
    if end <= 1 {
        return false;
    }
    let mut i: usize = 1;
    while i < end
        invariant
            1 <= i <= end,
            end <= n,
            n == m.command.params@.len(),
            all == texts(m.command.params@),
            end == tokens_end(all),
            all == m@.command.params,
            forall|j: int| 1 <= j < i ==> supports_token(#[trigger] all[j]),
        decreases end - i,
    {
        assert(all[i as int] == m.command.params@[i as int]@);
        if !is_supports_token(m.command.params[i].as_str()) {
            return false;
        }
        i = i + 1;
    }
    true
}

/// What a server supports is taken up only as a whole: the server closed the batch, nothing of it was
/// lost or stands elsewhere, and every row of it is what it should be.
pub open spec fn supports_whole(b: BatchV, clean_end: bool) -> bool {
    &&& clean_end
    &&& b.dropped == 0
    &&& !b.spoiled
    &&& b.messages.len() > 0
    &&& forall|i: int|
        0 <= i < b.messages.len() ==> supports_row((#[trigger] b.messages[i]).message.command)
}

/// Whether a batch of what a server supports is taken up.
pub fn is_supports_whole(b: &BatchInfo, clean_end: bool) -> (r: bool)
    ensures
        r == supports_whole(b@, clean_end),
{
    let ghost all = b@.messages;
    assert(all.len() == b.messages@.len());
    if !clean_end || b.dropped > 0 || b.spoiled || b.messages.len() == 0 {
        return false;
    }
    let mut i: usize = 0;
    while i < b.messages.len()
        invariant
            i <= b.messages@.len(),
            all == numbered_views(b.messages@),
            all == b@.messages,
            forall|j: int| 0 <= j < i ==> supports_row((#[trigger] all[j]).message.command),
        decreases b.messages@.len() - i,
    {
        assert(all[i as int] == b.messages@[i as int]@);
        if !is_supports_row(&b.messages[i].message) {
            return false;
        }
        i = i + 1;
    }
    true
}

/// Adds counts, up to the largest value.
pub fn add_up_to_max(a: u64, b: u64) -> (r: u64)
    ensures
        r == sum_up_to_max(a, b),
{
    if a > u64::MAX - b {
        u64::MAX
    } else {
        a + b
    }
}

impl BatchInfo {
    /// The batch that this one is nested in.
    pub open spec fn parent(&self) -> Option<Seq<char>> {
        tag_value(tag_views(self.opener@), "batch"@)
    }

    /// Whether the messages of the batch are live.
    pub fn is_live(&self) -> (r: bool)
        ensures
            r == live_kind(self.kind@),
    {
        let k = self.kind.as_str();
        !same(k, "chathistory") && !same(k, "netsplit") && !same(k, "netjoin") && !same(
            k,
            "draft/chathistory-targets",
        ) && !same(k, "soju.im/search") && !same(k, "draft/isupport")
    }

    /// The batch that this one is nested in.
    pub fn parent_ref(&self) -> (r: Option<&String>)
        ensures
            match r {
                Some(p) => self.parent() == Some(p@),
                None => self.parent() is None,
            },
    {
        tag_text(&self.opener, "batch")
    }

    /// Takes one message more.
    pub fn take_one(&mut self, x: Numbered)
        ensures
            final(self)@ == taken(old(self)@, x@),
    {
        let ghost before = self@;
        if self.messages.len() >= BATCH_MAX {
            self.dropped = add_up_to_max(self.dropped, 1);
            assert(self@ =~= taken(before, x@));
            return;
        }
        let ghost xv = x@;
        let ghost list = numbered_views(self.messages@);
        let mut j: usize = self.messages.len();
        while j > 0 && self.messages[j - 1].order > x.order
            invariant
                j <= self.messages@.len(),
                list == numbered_views(self.messages@),
                forall|k: int| j <= k < list.len() ==> (#[trigger] list[k]).order > x.order,
            decreases j,
        {
            assert(list[j - 1] == self.messages@[j - 1]@);
            j = j - 1;
        }
        proof {
            if j > 0 {
                assert(list[j - 1] == self.messages@[j - 1]@);
            }
            lemma_placed(list, xv, j as int);
        }
        self.messages.insert(j, x);
        assert(numbered_views(self.messages@) =~= list.insert(j as int, xv));
        assert(self@ =~= taken(before, xv));
    }

    /// Takes the messages of another batch, which had dropped some itself.
    pub fn extend_messages(&mut self, items: Vec<Numbered>, dropped: u64)
        ensures
            final(self)@ == extended(old(self)@, numbered_views(items@), dropped),
    {
        let ghost before = self@;
        let ghost all = numbered_views(items@);
        let mut rest = items;
        let ghost mut i: int = 0;
        assert(all.take(0) =~= Seq::<NumberedV>::empty());
        while rest.len() > 0
            invariant
                0 <= i <= all.len(),
                numbered_views(rest@) == all.skip(i),
                self@ == all_taken(before, all.take(i)),
            decreases rest@.len(),
        {
            let ghost was = rest@;
            let x = rest.remove(0);
            proof {
                assert(numbered_views(was).len() == was.len());
                assert(i < all.len());
                assert(x@ == numbered_views(was)[0]);
                assert forall|k: int| 0 <= k < rest@.len() implies numbered_views(rest@)[k] == all.skip(
                    i + 1,
                )[k] by {
                    assert(numbered_views(was)[k + 1] == all.skip(i)[k + 1]);
                }
                assert(numbered_views(rest@) =~= all.skip(i + 1));
                assert(all.take(i + 1).drop_last() =~= all.take(i));
                assert(all.take(i + 1).last() == x@);
                i = i + 1;
            }
            self.take_one(x);
        }
        proof {
            assert(numbered_views(rest@).len() == 0);
            assert(all.skip(i).len() == all.len() - i);
            assert(all.take(i) =~= all);
        }
        self.dropped = add_up_to_max(self.dropped, dropped);
        assert(self@ =~= extended(before, all, dropped));
    }
}

/// What a batch of lines stands for.
#[derive(Debug)]
pub enum MultilineOutcome {
    Message(IrcMessage),
    /// The messages are not parts of one, and stand for themselves.
    Replay,
    Empty,
}

/// The model of a [`MultilineOutcome`].
pub enum MultilineOutcomeV {
    Message(IrcMessageV),
    Replay,
    Empty,
}

impl View for MultilineOutcome {
    type V = MultilineOutcomeV;

    open spec fn view(&self) -> MultilineOutcomeV {
        match self {
            MultilineOutcome::Message(m) => MultilineOutcomeV::Message(m@),
            MultilineOutcome::Replay => MultilineOutcomeV::Replay,
            MultilineOutcome::Empty => MultilineOutcomeV::Empty,
        }
    }
}

/// A message is a part of the message that `first` begins.
pub open spec fn part_of(first: IrcMessageV, m: IrcMessageV) -> bool {
    &&& m.command.verb == first.command.verb
    &&& m.command.params.len() == 2
    &&& m.command.params[0] == first.command.params[0]
}

/// All messages of a batch are parts of one.
pub open spec fn one_message(messages: Seq<NumberedV>) -> bool {
    &&& messages[0].message.command.verb == "PRIVMSG"@ || messages[0].message.command.verb == "NOTICE"@
    &&& messages[0].message.command.params.len() == 2
    &&& forall|i: int|
        0 <= i < messages.len() ==> part_of(messages[0].message, (#[trigger] messages[i]).message)
}

/// The lines of the messages of a batch.
pub open spec fn lines_of(messages: Seq<NumberedV>) -> Seq<BatchLineV> {
    messages.map_values(
        |n: NumberedV|
            BatchLineV {
                text: n.message.command.params[1],
                joined: tagged(n.message.command.tags, "draft/multiline-concat"@),
            },
    )
}

/// The tags that a message of several lines has: not those that only hold its parts together.
pub open spec fn outer_tags(tags: Seq<TagV>) -> Seq<TagV>
    decreases tags.len(),
{
    if tags.len() == 0 {
        Seq::empty()
    } else {
        let init = outer_tags(tags.drop_last());
        if tags.last().key == "batch"@ || tags.last().key == "draft/multiline-concat"@ {
            init
        } else {
            init.push(tags.last())
        }
    }
}

/// What a batch of lines stands for.
pub open spec fn multiline_outcome(b: BatchV) -> MultilineOutcomeV {
    if b.messages.len() == 0 {
        MultilineOutcomeV::Empty
    } else if !one_message(b.messages) {
        MultilineOutcomeV::Replay
    } else {
        let first = b.messages[0].message;
        MultilineOutcomeV::Message(
            IrcMessageV {
                source: first.source,
                command: CommandV {
                    tags: outer_tags(b.opener) + outer_tags(first.command.tags),
                    verb: first.command.verb,
                    params: seq![first.command.params[0], reassembled(lines_of(b.messages))],
                },
            },
        )
    }
}

/// Copies the tags that a message of several lines has.
fn copy_outer_tags(tags: &Vec<Tag>) -> (r: Vec<Tag>)
    ensures
        tag_views(r@) == outer_tags(tag_views(tags@)),
{
    let ghost all = tag_views(tags@);
    let mut r: Vec<Tag> = Vec::new();
    let mut i: usize = 0;
    assert(all.take(0) =~= Seq::<TagV>::empty());
    assert(tag_views(r@) =~= Seq::<TagV>::empty());
    while i < tags.len()
        invariant
            i <= tags@.len(),
            all == tag_views(tags@),
            tag_views(r@) == outer_tags(all.take(i as int)),
        decreases tags@.len() - i,
    {
        assert(all.take(i + 1).drop_last() =~= all.take(i as int));
        assert(all.take(i + 1).last() == tags@[i as int]@);
        let key = tags[i].key.as_str();
        if !same(key, "batch") && !same(key, "draft/multiline-concat") {
            let ghost was = tag_views(r@);
            let t = Tag { key: tags[i].key.clone(), value: tags[i].value.clone() };
            let ghost tv = t@;
            assert(tv == all[i as int]);
            r.push(t);
            assert(tag_views(r@) =~= was.push(tv));
        }
        i = i + 1;
    }
    assert(all.take(all.len() as int) =~= all);
    r
}

/// Puts a message of several lines together.
pub fn build_multiline_message(b: &BatchInfo) -> (r: MultilineOutcome)
    ensures
        r@ == multiline_outcome(b@),
{
    let ghost all = numbered_views(b.messages@);
    if b.messages.len() == 0 {
        return MultilineOutcome::Empty;
    }
    let first = &b.messages[0].message;
    proof {
        assert(all[0] == b.messages@[0]@);
    }
    let verb = first.command.verb.as_str();
    if !(same(verb, "PRIVMSG") || same(verb, "NOTICE")) || first.command.params.len() != 2 {
        assert(!one_message(all));
        return MultilineOutcome::Replay;
    }
    let target = first.command.params[0].as_str();
    let ghost fv = all[0].message;
    assert(fv.command.params[0] == target@);
    let mut lines: Vec<BatchLine> = Vec::new();
    let mut i: usize = 0;
    while i < b.messages.len()
        invariant
            i <= b.messages@.len(),
            all == numbered_views(b.messages@),
            fv == all[0].message,
            fv.command.verb == verb@,
            fv.command.params[0] == target@,
            forall|j: int| 0 <= j < i ==> part_of(fv, (#[trigger] all[j]).message),
            line_views(lines@) =~= lines_of(all).take(i as int),
        decreases b.messages@.len() - i,
    {
        let m = &b.messages[i].message;
        assert(all[i as int] == b.messages@[i as int]@);
        assert(texts(m.command.params@) == all[i as int].message.command.params);
        if m.command.params.len() != 2 || !same(m.command.verb.as_str(), verb) || !same(
            m.command.params[0].as_str(),
            target,
        ) {
            assert(!part_of(fv, all[i as int].message));
            return MultilineOutcome::Replay;
        }
        let ghost was = line_views(lines@);
        let line = BatchLine {
            text: m.command.params[1].clone(),
            joined: has_tag(&m.command.tags, "draft/multiline-concat"),
        };
        let ghost lv = line@;
        assert(lv == lines_of(all)[i as int]);
        lines.push(line);
        assert(line_views(lines@) =~= was.push(lv));
        i = i + 1;
    }
    assert(one_message(all));
    assert(line_views(lines@) =~= lines_of(all));
    let mut tags = copy_outer_tags(&b.opener);
    let mut more = copy_outer_tags(&first.command.tags);
    let ghost a = tag_views(tags@);
    let ghost c = tag_views(more@);
    tags.append(&mut more);
    assert(tag_views(tags@) =~= a + c);
    let mut params: Vec<String> = Vec::new();
    params.push(first.command.params[0].clone());
    params.push(reassemble(&lines));
    assert(texts(params@) =~= seq![target@, reassembled(lines_of(all))]);
    let source = match &first.source {
        Some(s) => Some(
            Source { nick: s.nick.clone(), ident: s.ident.clone(), host: s.host.clone() },
        ),
        None => None,
    };
    MultilineOutcome::Message(
        IrcMessage { source, command: Command { tags, verb: first.command.verb.clone(), params } },
    )
}

/// The open batches of a connection.
pub struct BatchTracker {
    pub open: StrMap<BatchInfo>,
    /// The place of the next message.
    pub next_order: u64,
}

/// The models of the open batches.
pub open spec fn batches_of(open: Map<Seq<char>, BatchInfo>) -> Map<Seq<char>, BatchV> {
    open.map_values(|b: BatchInfo| b@)
}

/// A message with the label of the batch that it belongs to, where it has none itself.
pub open spec fn with_label(open: Map<Seq<char>, BatchV>, c: CommandV) -> CommandV {
    match tag_value(c.tags, "batch"@) {
        Some(tag) if !tagged(c.tags, "label"@) && open.contains_key(tag) && tag_value(
            open[tag].opener,
            "label"@,
        ) is Some => CommandV {
            tags: c.tags.push(
                TagV { key: "label"@, value: tag_value(open[tag].opener, "label"@) },
            ),
            ..c
        },
        _ => c,
    }
}

impl BatchTracker {
    /// The models of the open batches.
    pub open spec fn batches(&self) -> Map<Seq<char>, BatchV> {
        batches_of(self.open@)
    }

    /// No batch is open.
    pub fn new() -> (r: BatchTracker)
        ensures
            r.batches() == Map::<Seq<char>, BatchV>::empty(),
            r.next_order == 0,
    {
        let r = BatchTracker { open: StrMap::new(), next_order: 0 };
        assert(r.batches() =~= Map::<Seq<char>, BatchV>::empty());
        r
    }

    /// Opens a batch.
    pub fn start_batch(
        &mut self,
        tag: &str,
        kind: &str,
        params: Vec<String>,
        opener: Vec<Tag>,
        now: u64,
    )
        ensures
            final(self).next_order == old(self).next_order,
            final(self).batches() == old(self).batches().insert(
                tag@,
                (BatchV {
                    kind: lower_seq(kind@),
                    params: texts(params@),
                    opener: tag_views(opener@),
                    messages: Seq::empty(),
                    dropped: 0,
                    started_at: now,
                    spoiled: opens_spoiled(old(self).batches(), tag_views(opener@)),
                }),
            ),
    {
        let ghost before = self.batches();
        let spoiled = match tag_text(&opener, "batch") {
            None => false,
            Some(parent) => match self.open.get(parent.as_str()) {
                None => true,
                Some(b) => {
                    assert(before[parent@] == b@);
                    !b.is_live() || b.spoiled
                },
            },
        };
        let b = BatchInfo {
            kind: lower(kind),
            params,
            opener,
            messages: Vec::new(),
            dropped: 0,
            started_at: now,
            spoiled,
        };
        let ghost bv = b@;
        assert(bv.messages =~= Seq::<NumberedV>::empty());
        self.open.insert(tag.to_string(), b);
        assert(self.batches() =~= before.insert(tag@, bv));
    }

    /// A batch command inside what a server supports spoils that.
    pub fn invalidate_isupport_parent(&mut self, message: &IrcMessage)
        ensures
            final(self).next_order == old(self).next_order,
            final(self).batches() == spoil(old(self).batches(), message@.command),
    {
        let ghost before = self.batches();
        match tag_text(&message.command.tags, "batch") {
            None => {},
            Some(parent) => match self.open.get_mut(parent.as_str()) {
                None => {},
                Some(b) => {
                    let ghost bv = b@;
                    assert(before[parent@] == bv);
                    if same(b.kind.as_str(), "draft/isupport") {
                        b.spoiled = true;
                        assert(b@ =~= (BatchV { spoiled: true, ..bv }));
                    }
                },
            },
        }
        assert(self.batches() =~= spoil(before, message@.command));
    }

    /// Whether a message belongs to an open batch.
    pub fn is_batched(&self, message: &IrcMessage) -> (r: bool)
        ensures
            r == (tag_value(message@.command.tags, "batch"@) matches Some(tag)
                && self.batches().contains_key(tag)),
    {
        match tag_text(&message.command.tags, "batch") {
            Some(tag) => self.open.contains(tag.as_str()),
            None => false,
        }
    }

    /// Gives a message the label of the batch that it belongs to.
    pub fn inherit_label(&self, message: &mut IrcMessage)
        ensures
            final(message).source == old(message).source,
            final(message)@.command == with_label(self.batches(), old(message)@.command),
    {
        let ghost before = message@.command;
        if has_tag(&message.command.tags, "label") {
            return;
        }
        let label = match tag_text(&message.command.tags, "batch") {
            None => None,
            Some(tag) => match self.open.get(tag.as_str()) {
                None => None,
                Some(b) => {
                    assert(self.batches()[tag@] == b@);
                    match tag_text(&b.opener, "label") {
                        None => None,
                        Some(label) => Some(label.clone()),
                    }
                },
            },
        };
        match label {
            None => {},
            Some(label) => {
                let t = Tag { key: "label".to_string(), value: Some(label) };
                let ghost tv = t@;
                message.command.tags.push(t);
                assert(message@.command.tags =~= before.tags.push(tv));
            },
        }
        assert(message@.command =~= with_label(self.batches(), before));
    }

    /// Collects a message into the open batch that it belongs to.
    pub fn add_message(&mut self, message: IrcMessage)
        ensures
            match tag_value(message@.command.tags, "batch"@) {
                Some(tag) if old(self).batches().contains_key(tag) => {
                    &&& final(self).batches() == old(self).batches().insert(
                        tag,
                        taken(
                            old(self).batches()[tag],
                            (NumberedV { order: old(self).next_order, message: message@ }),
                        ),
                    )
                    &&& final(self).next_order == crate::state::id_after(old(self).next_order)
                },
                _ => *final(self) == *old(self),
            },
    {
        let ghost before = self.batches();
        let tag = match tag_text(&message.command.tags, "batch") {
            None => {
                return;
            },
            Some(tag) => tag.clone(),
        };
        if !self.open.contains(tag.as_str()) {
            return;
        }
        let x = Numbered { order: self.next_order, message };
        let ghost xv = x@;
        match self.open.get_mut(tag.as_str()) {
            None => {},
            Some(b) => b.take_one(x),
        }
        assert(self.batches() =~= before.insert(tag@, taken(before[tag@], xv)));
        if self.next_order == u64::MAX {
            assert((u64::MAX + 1) % 0x1_0000_0000_0000_0000 == 0);
            self.next_order = 0;
        } else {
            self.next_order = self.next_order + 1;
        }
    }

    /// Hands the messages of a nested batch to the one around it; tells whether that one is open.
    pub fn fold_messages(&mut self, parent: &str, items: Vec<Numbered>, dropped: u64) -> (r: bool)
        ensures
            r == old(self).batches().contains_key(parent@),
            final(self).next_order == old(self).next_order,
            final(self).batches() == (if r {
                old(self).batches().insert(
                    parent@,
                    extended(old(self).batches()[parent@], numbered_views(items@), dropped),
                )
            } else {
                old(self).batches()
            }),
    {
        let ghost before = self.batches();
        let ghost iv = numbered_views(items@);
        match self.open.get_mut(parent) {
            None => false,
            Some(b) => {
                b.extend_messages(items, dropped);
                assert(self.batches() =~= before.insert(parent@, extended(before[parent@], iv, dropped)));
                true
            },
        }
    }

    /// Closes a batch.
    pub fn end_batch(&mut self, tag: &str) -> (r: Option<BatchInfo>)
        ensures
            final(self).next_order == old(self).next_order,
            final(self).batches() == old(self).batches().remove(tag@),
            match r {
                Some(b) => old(self).batches().contains_key(tag@) && b@ == old(self).batches()[tag@],
                None => !old(self).batches().contains_key(tag@),
            },
    {
        let ghost before = self.batches();
        let r = self.open.remove(tag);
        assert(self.batches() =~= before.remove(tag@));
        r
    }
}

/// A batch keeps at most so many messages, however many it is handed.
pub proof fn batch_is_bounded(b: BatchV, items: Seq<NumberedV>, dropped: u64)
    requires
        b.messages.len() <= BATCH_MAX,
    ensures
        extended(b, items, dropped).messages.len() <= BATCH_MAX,
        extended(b, items, dropped).messages.len() <= b.messages.len() + items.len(),
    decreases items.len(),
{
    if items.len() > 0 {
        batch_is_bounded(b, items.drop_last(), dropped);
        let t = all_taken(b, items.drop_last());
        lemma_placed_len(t.messages, items.last());
    }
}

/// Placing a message makes a list longer by one.
proof fn lemma_placed_len(list: Seq<NumberedV>, x: NumberedV)
    ensures
        placed(list, x).len() == list.len() + 1,
    decreases list.len(),
{
    if !(list.len() == 0 || list.last().order <= x.order) {
        lemma_placed_len(list.drop_last(), x);
    }
}

/// A list is in the order of the wire.
pub open spec fn in_wire_order(list: Seq<NumberedV>) -> bool {
    forall|i: int, j: int| 0 <= i <= j < list.len() ==> (#[trigger] list[i]).order <= (#[trigger] list[j]).order
}

/// However nested batches are folded into one another, the messages stay in the order of the wire.
pub proof fn folding_keeps_wire_order(b: BatchV, items: Seq<NumberedV>, dropped: u64)
    requires
        in_wire_order(b.messages),
    ensures
        in_wire_order(extended(b, items, dropped).messages),
    decreases items.len(),
{
    if items.len() > 0 {
        folding_keeps_wire_order(b, items.drop_last(), dropped);
        let t = all_taken(b, items.drop_last());
        lemma_placed_in_order(t.messages, items.last());
    }
}

/// Placing a message keeps the order.
proof fn lemma_placed_in_order(list: Seq<NumberedV>, x: NumberedV)
    requires
        in_wire_order(list),
    ensures
        in_wire_order(placed(list, x)),
        placed(list, x).len() == list.len() + 1,
        placed(list, x).last().order == (if list.len() == 0 || list.last().order <= x.order {
            x.order
        } else {
            list.last().order
        }),
    decreases list.len(),
{
    if !(list.len() == 0 || list.last().order <= x.order) {
        let rest = list.drop_last();
        assert(in_wire_order(rest)) by {
            assert forall|i: int, j: int| 0 <= i <= j < rest.len() implies (#[trigger] rest[i]).order
                <= (#[trigger] rest[j]).order by {
                assert(list[i].order <= list[j].order);
            }
        }
        lemma_placed_in_order(rest, x);
        let p = placed(rest, x);
        if rest.len() > 0 {
            assert(list[rest.len() - 1].order <= list[list.len() - 1].order);
        }
        assert forall|i: int, j: int| 0 <= i <= j < p.push(list.last()).len() implies (#[trigger] p.push(
            list.last(),
        )[i]).order <= (#[trigger] p.push(list.last())[j]).order by {
            if j < p.len() {
                assert(p[i].order <= p[j].order);
            } else if i < p.len() {
                assert(p[i].order <= p[p.len() - 1].order);
            }
        }
    } else {
        assert forall|i: int, j: int| 0 <= i <= j < list.push(x).len() implies (#[trigger] list.push(
            x,
        )[i]).order <= (#[trigger] list.push(x)[j]).order by {
            if j < list.len() {
                assert(list[i].order <= list[j].order);
            } else if i < list.len() {
                assert(list[i].order <= list[list.len() - 1].order);
            }
        }
    }
}

/// What goes out in one batch comes back as one message: a batch of the messages that a text of several lines
/// is sent as, by whoever it comes from, stands for one message with that text to the same target.
pub proof fn lines_sent_come_back_as_one_message(
    text: Seq<char>,
    limits: Limits,
    target: Seq<char>,
    batch_ref: Seq<char>,
    b: BatchV,
)
    requires
        partitioned(text, limits) is Some,
        partitioned(text, limits)->0.len() == 1,
        b.messages.len() == partitioned(text, limits)->0[0].len(),
        forall|i: int|
            0 <= i < b.messages.len() ==> (#[trigger] b.messages[i]).message.command == frames(
                target,
                batch_ref,
                partitioned(text, limits)->0[0],
            )[i + 1],
    ensures
        multiline_outcome(b) matches MultilineOutcomeV::Message(m) && m.command.verb == "PRIVMSG"@
            && m.command.params == seq![target, text] && m.source == b.messages[0].message.source,
{
    let lines = partitioned(text, limits)->0[0];
    batches_keep_the_limits(text, limits, 0);
    one_batch_is_the_text(text, limits);
    reveal_strlit("batch");
    reveal_strlit("draft/multiline-concat");
    assert("batch"@.len() != "draft/multiline-concat"@.len());
    assert forall|i: int| 0 <= i < lines.len() implies (#[trigger] b.messages[i]).message.command == line_frame(
        target,
        batch_ref,
        lines[i],
    ) by {
        assert(frames(target, batch_ref, lines)[i + 1] == line_frame(target, batch_ref, lines[i]));
    }
    assert(one_message(b.messages)) by {
        assert(b.messages[0].message.command == line_frame(target, batch_ref, lines[0]));
        assert forall|i: int| 0 <= i < b.messages.len() implies part_of(
            b.messages[0].message,
            (#[trigger] b.messages[i]).message,
        ) by {
            assert(b.messages[i].message.command == line_frame(target, batch_ref, lines[i]));
        }
    }
    assert(lines_of(b.messages) =~= lines) by {
        assert forall|i: int| 0 <= i < lines.len() implies lines_of(b.messages)[i] == lines[i] by {
            let tags = b.messages[i].message.command.tags;
            assert(b.messages[i].message.command == line_frame(target, batch_ref, lines[i]));
            assert(tagged(tags, "draft/multiline-concat"@) <==> lines[i].joined) by {
                if lines[i].joined {
                    assert(tags[1].key == "draft/multiline-concat"@);
                } else {
                    assert(tags[0].key == "batch"@);
                    assert(tags.len() == 1);
                }
            }
        }
    }
}

proof fn lemma_placed_has(list: Seq<NumberedV>, x: NumberedV, y: NumberedV)
    ensures
        placed(list, x).contains(x),
        list.contains(y) ==> placed(list, x).contains(y),
    decreases list.len(),
{
    let all = placed(list, x);
    if list.len() == 0 || list.last().order <= x.order {
        assert(all[list.len() as int] == x);
        if list.contains(y) {
            assert(all[list.index_of(y)] == y);
        }
    } else {
        let rest = list.drop_last();
        let init = placed(rest, x);
        lemma_placed_has(rest, x, y);
        assert(all[init.index_of(x)] == x);
        if list.contains(y) {
            let i = list.index_of(y);
            if i < rest.len() {
                assert(rest[i] == y);
                assert(all[init.index_of(y)] == y);
            } else {
                assert(all[all.len() - 1] == y);
            }
        }
    }
}

/// Where there is room, a batch that takes the messages of another loses none of its own and none of the other.
pub proof fn folding_loses_nothing(b: BatchV, items: Seq<NumberedV>, dropped: u64, x: NumberedV)
    requires
        b.messages.len() + items.len() <= 4096,
    ensures
        b.messages.contains(x) || items.contains(x) ==> extended(b, items, dropped).messages.contains(x),
        extended(b, items, dropped).messages.len() == b.messages.len() + items.len(),
    decreases items.len(),
{
    if items.len() > 0 {
        let rest = items.drop_last();
        let t = all_taken(b, rest);
        folding_loses_nothing(b, rest, dropped, x);
        lemma_placed_len(t.messages, items.last());
        lemma_placed_has(t.messages, items.last(), x);
        if items.contains(x) && items.index_of(x) < rest.len() {
            assert(rest[items.index_of(x)] == x);
        }
    }
}

} // verus!
