//! The results of a search on the server.
use vstd::prelude::*;

use crate::app::Clock;
use crate::batch::{numbered_views, BatchInfo, BatchV, IrcMessage, IrcMessageV, Numbered, NumberedV};
use crate::server_search::{
    context_match, context_over, end_context, lemma_late_is_given_up, lemma_ticked_keeps, match_context, noted,
    search_note, search_view, searches_ticked, tick_server_search, view_of, ContextMatch, Pending, SearchRow,
    Searches, SEARCH_MS,
};
use crate::state::{appended_at, id_after, said_v, AppState, Message, MessageType, MessageV};
use crate::text::{
    chars_of, concat3, decimal, decimal_seq, has_char, lower_char, opt_text, same, slice_text, strip_prefix,
};
use crate::times::{parse_rfc3339_millis, rfc3339_parsed};
use crate::wire::{tag_views, Tag, TagV};

verus! {

broadcast use vstd::string::group_string_axioms;

/// One character as a server compares it.
pub open spec fn fold_char(c: char, mapping: Seq<char>) -> char {
    let wide = mapping != "ascii"@;
    if wide && c == '[' {
        '{'
    } else if wide && c == ']' {
        '}'
    } else if wide && c == '\\' {
        '|'
    } else if wide && mapping != "strict-rfc1459"@ && c == '~' {
        '^'
    } else {
        lower_char(c)
    }
}

/// A name as a server compares it.
pub open spec fn folded(s: Seq<char>, mapping: Seq<char>) -> Seq<char> {
    s.map_values(|c: char| fold_char(c, mapping))
}

/// A name as a server compares it.
pub fn casefold(s: &str, mapping: &str) -> (r: String)
    ensures
        r@ == folded(s@, mapping@),
{
    let wide = !same(mapping, "ascii");
    let strict = same(mapping, "strict-rfc1459");
    let v = chars_of(s);
    let mut r = String::new();
    let mut i: usize = 0;
    assert(r@ =~= folded(s@, mapping@).take(0));
    while i < v.len()
        invariant
            v@ == s@,
            i <= v@.len(),
            wide == (mapping@ != "ascii"@),
            strict == (mapping@ == "strict-rfc1459"@),
            r@ == folded(s@, mapping@).take(i as int),
        decreases v@.len() - i,
    {
        let c = v[i];
        let ghost was = r@;
        if wide && c == '[' {
            r.push('{');
        } else if wide && c == ']' {
            r.push('}');
        } else if wide && c == '\\' {
            r.push('|');
        } else if wide && !strict && c == '~' {
            r.push('^');
        } else {
            r.push(crate::text::lower_ascii(c));
        }
        assert(r@ =~= was.push(fold_char(c, mapping@)));
        assert(r@ =~= folded(s@, mapping@).take(i + 1));
        i = i + 1;
    }
    assert(folded(s@, mapping@).take(v@.len() as int) =~= folded(s@, mapping@));
    r
}

/// The value of the last tag called `key` that has one.
pub open spec fn last_value(tags: Seq<TagV>, key: Seq<char>) -> Option<Seq<char>>
    decreases tags.len(),
{
    if tags.len() == 0 {
        None
    } else if tags.last().key == key && tags.last().value is Some {
        tags.last().value
    } else {
        last_value(tags.drop_last(), key)
    }
}

/// The value of the last tag called `key` that has one.
fn last_tag<'a>(tags: &'a Vec<Tag>, key: &str) -> (r: Option<&'a String>)
    ensures
        match r {
            Some(v) => last_value(tag_views(tags@), key@) == Some(v@),
            None => last_value(tag_views(tags@), key@) is None,
        },
{
    let ghost all = tag_views(tags@);
    let mut i: usize = tags.len();
    assert(all.take(all.len() as int) =~= all);
    while i > 0
        invariant
            i <= tags@.len(),
            all == tag_views(tags@),
            last_value(all, key@) == last_value(all.take(i as int), key@),
        decreases i,
    {
        assert(all.take(i as int).drop_last() =~= all.take(i - 1));
        assert(all.take(i as int).last() == tags@[i - 1]@);
        i = i - 1;
        if same(tags[i].key.as_str(), key) {
            match &tags[i].value {
                Some(v) => {
                    return Some(v);
                },
                None => {},
            }
        }
    }
    assert(all.take(0) =~= Seq::<TagV>::empty());
    None
}

/// One result.
#[derive(Debug)]
pub struct ResultRow {
    pub nick: String,
    pub text: String,
    pub notice: bool,
    pub at_ms: i64,
    /// The `ident@host` of who said it.
    pub handle: String,
    /// Where it was said.
    pub target: String,
    pub msgid: Option<String>,
}

/// The model of a [`ResultRow`].
pub struct ResultRowV {
    pub nick: Seq<char>,
    pub text: Seq<char>,
    pub notice: bool,
    pub at_ms: i64,
    pub handle: Seq<char>,
    pub target: Seq<char>,
    pub msgid: Option<Seq<char>>,
}

impl View for ResultRow {
    type V = ResultRowV;

    open spec fn view(&self) -> ResultRowV {
        ResultRowV {
            nick: self.nick@,
            text: self.text@,
            notice: self.notice,
            at_ms: self.at_ms,
            handle: self.handle@,
            target: self.target@,
            msgid: opt_text(self.msgid),
        }
    }
}

/// The models of a list of results.
pub open spec fn row_views(v: Seq<ResultRow>) -> Seq<ResultRowV> {
    v.map_values(|r: ResultRow| r@)
}

/// A message belongs to the conversation that was searched: it went there, or it came from there in
/// private.
pub open spec fn belongs(
    target: Seq<char>,
    nick: Seq<char>,
    searched: Seq<char>,
    mapping: Seq<char>,
    channel_types: Seq<char>,
) -> bool {
    ||| folded(target, mapping) == folded(searched, mapping)
    ||| !(target.len() > 0 && channel_types.contains(target[0])) && folded(nick, mapping) == folded(
        searched,
        mapping,
    )
}

/// The result that a message is.
pub open spec fn row_of(
    m: IrcMessageV,
    searched: Seq<char>,
    mapping: Seq<char>,
    channel_types: Seq<char>,
) -> Option<ResultRowV> {
    let c = m.command;
    if !(c.verb == "PRIVMSG"@ || c.verb == "NOTICE"@) || c.params.len() != 2 || m.source is None {
        None
    } else {
        let s = m.source->0;
        let time = match last_value(c.tags, "time"@) {
            Some(t) => rfc3339_parsed(t),
            None => None,
        };
        if !belongs(c.params[0], s.nick, searched, mapping, channel_types) || time is None {
            None
        } else {
            Some(
                ResultRowV {
                    nick: s.nick,
                    text: c.params[1],
                    notice: c.verb == "NOTICE"@,
                    at_ms: time->0,
                    handle: s.ident + "@"@ + s.host,
                    target: c.params[0],
                    msgid: last_value(c.tags, "msgid"@),
                },
            )
        }
    }
}

/// The result that a message is.
fn decode_row(m: &IrcMessage, searched: &str, mapping: &str, channel_types: &str) -> (r: Option<
    ResultRow,
>)
    ensures
        match r {
            Some(row) => row_of(m@, searched@, mapping@, channel_types@) == Some(row@),
            None => row_of(m@, searched@, mapping@, channel_types@) is None,
        },
{
    let c = &m.command;
    assert(c@.params.len() == c.params@.len());
    let notice = same(c.verb.as_str(), "NOTICE");
    if !(same(c.verb.as_str(), "PRIVMSG") || notice) || c.params.len() != 2 {
        return None;
    }
    assert(c@.params[0] == c.params@[0]@);
    assert(c@.params[1] == c.params@[1]@);
    let s = match &m.source {
        None => {
            return None;
        },
        Some(s) => s,
    };
    let want = casefold(searched, mapping);
    let target = c.params[0].as_str();
    let at_target = same(casefold(target, mapping).as_str(), want.as_str());
    let tv = chars_of(target);
    let in_channel = tv.len() > 0 && has_char(channel_types, tv[0]);
    let private = !in_channel && same(
        casefold(s.nick.as_str(), mapping).as_str(),
        want.as_str(),
    );
    if !at_target && !private {
        return None;
    }
    let at_ms: i64 = match last_tag(&c.tags, "time") {
        None => {
            return None;
        },
        Some(t) => match parse_rfc3339_millis(t.as_str()) {
            None => {
                return None;
            },
            Some(ms) => ms,
        },
    };
    let msgid = match last_tag(&c.tags, "msgid") {
        Some(id) => Some(id.clone()),
        None => None,
    };
    Some(
        ResultRow {
            nick: s.nick.clone(),
            text: c.params[1].clone(),
            notice,
            at_ms,
            handle: concat3(s.ident.as_str(), "@", s.host.as_str()),
            target: c.params[0].clone(),
            msgid,
        },
    )
}

/// Every message of an answer is a result.
pub open spec fn all_results(
    b: BatchV,
    searched: Seq<char>,
    mapping: Seq<char>,
    channel_types: Seq<char>,
) -> bool {
    forall|i: int|
        0 <= i < b.messages.len() ==> row_of(
            (#[trigger] b.messages[i]).message,
            searched,
            mapping,
            channel_types,
        ) is Some
}

/// The results of an answer: all, or none where any message is not one.
pub open spec fn results_of(
    b: BatchV,
    searched: Seq<char>,
    mapping: Seq<char>,
    channel_types: Seq<char>,
) -> Option<Seq<ResultRowV>> {
    if all_results(b, searched, mapping, channel_types) {
        Some(
            Seq::new(
                b.messages.len(),
                |i: int| row_of(b.messages[i].message, searched, mapping, channel_types)->0,
            ),
        )
    } else {
        None
    }
}

/// The results of an answer.
pub fn decode_results(batch: &BatchInfo, searched: &str, mapping: &str, channel_types: &str) -> (r: Option<
    Vec<ResultRow>,
>)
    ensures
        match r {
            Some(rows) => results_of(batch@, searched@, mapping@, channel_types@) == Some(
                row_views(rows@),
            ),
            None => results_of(batch@, searched@, mapping@, channel_types@) is None,
        },
{
    let ghost b = batch@;
    let mut r: Vec<ResultRow> = Vec::new();
    let mut i: usize = 0;
    while i < batch.messages.len()
        invariant
            i <= batch.messages@.len(),
            b == batch@,
            b.messages.len() == batch.messages@.len(),
            r@.len() == i,
            forall|j: int|
                0 <= j < i ==> row_of(
                    (#[trigger] b.messages[j]).message,
                    searched@,
                    mapping@,
                    channel_types@,
                ) == Some(r@[j]@),
        decreases batch.messages@.len() - i,
    {
        assert(b.messages[i as int] == batch.messages@[i as int]@);
        match decode_row(&batch.messages[i].message, searched, mapping, channel_types) {
            None => {
                assert(!all_results(b, searched@, mapping@, channel_types@));
                return None;
            },
            Some(row) => {
                r.push(row);
            },
        }
        i = i + 1;
    }
    proof {
        assert(all_results(b, searched@, mapping@, channel_types@));
        let want = results_of(b, searched@, mapping@, channel_types@)->0;
        assert forall|j: int| 0 <= j < r@.len() implies row_views(r@)[j] == want[j] by {
            assert(row_of(b.messages[j].message, searched@, mapping@, channel_types@) == Some(r@[j]@));
        }
        assert(row_views(r@) =~= want);
    }
    Some(r)
}

/// What an answer leads to.
#[derive(Debug)]
pub enum Answer {
    /// Nothing is shown.
    Nothing,
    /// These results are shown, once their texts are readable.
    Results { target: String, context: bool, view: String, rows: Vec<ResultRow> },
}

pub const INTERRUPTED: &'static str =
    "Search response was interrupted; results discarded. Reconnect before retrying";

pub const TOO_MANY: &'static str =
    "Search response exceeded the requested limit; results discarded";

pub const INVALID: &'static str = "Search response contained invalid results; results discarded";

/// An answer is not the one to the request that is under way.
pub open spec fn foreign(p: Pending, b: BatchV) -> bool {
    b.started_at < p.started || (b.kind == "soju.im/search"@ && p.context)
}

/// What an answer leads to, once overdue requests were given up: an answer that the server did not
/// close is forgotten together with what may still come, and one with a message too many or a message
/// that is no result is forgotten whole.
pub open spec fn answer_taken(
    s0: AppState,
    s1: AppState,
    q0: Searches,
    q1: Searches,
    id: Seq<char>,
    b: BatchV,
    clean_end: bool,
    channel_types: Seq<char>,
    now_ms: i64,
    r: Answer,
) -> bool {
    let p = q0.pending@[id];
    &&& q1 == (Searches { pending: q1.pending, ..q0 })
    &&& if !q0.pending@.contains_key(id) || foreign(p, b) {
        r is Nothing && q1.pending@ == q0.pending@ && s1 == s0
    } else if !clean_end {
        &&& r is Nothing
        &&& q1.pending@ == q0.pending@.insert(id, Pending { discard: true, ..p })
        &&& if p.discard {
            s1 == s0
        } else {
            noted(q0.views@, s0, s1, id, INTERRUPTED@, now_ms)
        }
    } else {
        &&& q1.pending@ == q0.pending@.remove(id)
        &&& if view_of(q0.views@, s0, id) is None || p.discard {
            r is Nothing && s1 == s0
        } else if b.dropped > 0 || b.messages.len() > p.limit {
            r is Nothing && noted(q0.views@, s0, s1, id, TOO_MANY@, now_ms)
        } else if !s0.connections@.contains_key(id) {
            r is Nothing && s1 == s0
        } else {
            match results_of(b, p.target@, s0.connections@[id].casemapping@, channel_types) {
                None => r is Nothing && noted(q0.views@, s0, s1, id, INVALID@, now_ms),
                Some(rows) => {
                    &&& s1 == s0
                    &&& r matches Answer::Results { target, context, view, rows: got }
                    &&& target@ == p.target@
                    &&& context == p.context
                    &&& Some(view@) == view_of(q0.views@, s0, id)
                    &&& row_views(got@) == rows
                },
            }
        }
    }
}

/// What an answer leads to: overdue requests are given up first, so that an answer that comes too late is
/// not shown.
pub open spec fn answer_received(
    s0: AppState,
    s1: AppState,
    q0: Searches,
    q1: Searches,
    id: Seq<char>,
    b: BatchV,
    clean_end: bool,
    channel_types: Seq<char>,
    now: Clock,
    r: Answer,
) -> bool {
    exists|qm: Searches, sm: AppState|
        {
            &&& #[trigger] searches_ticked(q0, qm, s0, sm, now)
            &&& answer_taken(sm, s1, qm, q1, id, b, clean_end, channel_types, now.utc_ms, r)
        }
}

/// Gives up overdue requests, and takes up an answer to the request of a connection.
pub fn receive_search_results(
    searches: &mut Searches,
    state: &mut AppState,
    id: &str,
    batch: &BatchInfo,
    clean_end: bool,
    channel_types: &str,
    now: Clock,
) -> (r: Answer)
    ensures
        answer_received(
            *old(state),
            *final(state),
            *old(searches),
            *final(searches),
            id@,
            batch@,
            clean_end,
            channel_types@,
            now,
            r,
        ),
{
    let ghost s0 = *state;
    let ghost q0 = *searches;
    tick_server_search(searches, state, now);
    let ghost sm = *state;
    let ghost qm = *searches;
    let r = take_answer(searches, state, id, batch, clean_end, channel_types, now.utc_ms);
    assert(searches_ticked(q0, qm, s0, sm, now));
    r
}

/// Takes up an answer to the request of a connection.
fn take_answer(
    searches: &mut Searches,
    state: &mut AppState,
    id: &str,
    batch: &BatchInfo,
    clean_end: bool,
    channel_types: &str,
    now_ms: i64,
) -> (r: Answer)
    ensures
        answer_taken(
            *old(state),
            *final(state),
            *old(searches),
            *final(searches),
            id@,
            batch@,
            clean_end,
            channel_types@,
            now_ms,
            r,
        ),
{
    assert(batch@.messages.len() == batch.messages@.len());
    let discarded = match searches.pending.get(id) {
        None => {
            return Answer::Nothing;
        },
        Some(p) => {
            if batch.started_at < p.started || (same(batch.kind.as_str(), "soju.im/search")
                && p.context) {
                return Answer::Nothing;
            }
            p.discard
        },
    };
    if !clean_end {
        if !discarded {
            search_note(&searches.views, state, id, INTERRUPTED, now_ms);
        }
        match searches.pending.get_mut(id) {
            None => {},
            Some(p) => {
                p.discard = true;
            },
        }
        return Answer::Nothing;
    }
    let p = match searches.pending.remove(id) {
        None => {
            return Answer::Nothing;
        },
        Some(p) => p,
    };
    let view = match search_view(&searches.views, state, id) {
        None => {
            return Answer::Nothing;
        },
        Some(view) => view,
    };
    if p.discard {
        return Answer::Nothing;
    }
    if batch.dropped > 0 || batch.messages.len() as u64 > p.limit {
        search_note(&searches.views, state, id, TOO_MANY, now_ms);
        return Answer::Nothing;
    }
    let mapping = match state.connections.get(id) {
        None => {
            return Answer::Nothing;
        },
        Some(c) => c.casemapping.clone(),
    };
    match decode_results(batch, p.target.as_str(), mapping.as_str(), channel_types) {
        None => {
            search_note(&searches.views, state, id, INVALID, now_ms);
            Answer::Nothing
        },
        Some(rows) => Answer::Results { target: p.target, context: p.context, view, rows },
    }
}

/// A text as it is shown.
pub struct ShownV {
    pub text: Seq<char>,
    pub action: bool,
}

/// How a text is shown: an action without its marks, and no other request between clients.
pub open spec fn shown(text: Seq<char>) -> Option<ShownV> {
    let marked = text.len() >= 2 && text[0] == '\u{1}' && text.last() == '\u{1}';
    if !marked {
        Some(ShownV { text, action: false })
    } else {
        let inner = text.subrange(1, text.len() - 1);
        if "ACTION "@.is_prefix_of(inner) {
            Some(ShownV { text: inner.skip("ACTION "@.len() as int), action: true })
        } else {
            None
        }
    }
}

/// How a text is shown.
fn show_text(text: &str) -> (r: Option<(String, bool)>)
    ensures
        match r {
            Some((t, action)) => shown(text@) == Some(ShownV { text: t@, action }),
            None => shown(text@) is None,
        },
{
    let v = chars_of(text);
    let n: usize = v.len();
    if !(n >= 2 && v[0] == '\u{1}' && v[n - 1] == '\u{1}') {
        return Some((text.to_string(), false));
    }
    let inner = slice_text(&v, 1, n - 1);
    match strip_prefix(inner.as_str(), "ACTION ") {
        Some(t) => Some((t, true)),
        None => None,
    }
}

/// A result that is shown.
pub struct LineV {
    pub row: ResultRowV,
    pub text: Seq<char>,
    pub kind: MessageType,
}

/// The kind of a line.
pub open spec fn line_kind(notice: bool, action: bool) -> MessageType {
    if action {
        MessageType::Action
    } else if notice {
        MessageType::Notice
    } else {
        MessageType::Message
    }
}

/// The results that are shown: not those of people that the user hides, and not those whose text
/// cannot be read or is no line.
pub open spec fn lines_shown_of(
    rows: Seq<ResultRowV>,
    hidden: Seq<bool>,
    plain: Seq<Option<Seq<char>>>,
) -> Seq<LineV>
    decreases rows.len(),
{
    if rows.len() == 0 {
        Seq::empty()
    } else {
        let init = lines_shown_of(rows.drop_last(), hidden, plain);
        let i = rows.len() - 1;
        match plain[i] {
            Some(text) if !hidden[i] => match shown(text) {
                Some(s) => init.push(
                    LineV {
                        row: rows.last(),
                        text: s.text,
                        kind: line_kind(rows.last().notice, s.action),
                    },
                ),
                None => init,
            },
            _ => init,
        }
    }
}

/// How many results are not those of people that the user hides.
pub open spec fn unhidden(hidden: Seq<bool>) -> nat
    decreases hidden.len(),
{
    if hidden.len() == 0 {
        0
    } else {
        unhidden(hidden.drop_last()) + (if hidden.last() {
            0nat
        } else {
            1nat
        })
    }
}

/// A line as it stands in the view.
pub open spec fn line_v(id: u64, l: LineV) -> MessageV {
    MessageV { msgid: l.row.msgid, ..said_v(id, l.row.at_ms, l.kind, l.row.nick, None, l.text) }
}

/// One line was added to the view.
pub open spec fn line_added(before: AppState, after: AppState, view: Seq<char>, l: LineV) -> bool {
    &&& after == (AppState {
        buffers: after.buffers,
        message_counter: id_after(before.message_counter),
        ..before
    })
    &&& appended_at(
        before.buffers,
        after.buffers,
        view,
        seq![line_v(id_after(before.message_counter), l)],
    )
}

/// Lines were added to the view, one after the other.
pub open spec fn lines_added(before: AppState, after: AppState, view: Seq<char>, lines: Seq<LineV>) -> bool
    decreases lines.len(),
{
    if lines.len() == 0 {
        after == before
    } else {
        exists|middle: AppState|
            lines_added(before, middle, view, lines.drop_last()) && #[trigger] line_added(
                middle,
                after,
                view,
                lines.last(),
            )
    }
}

/// The texts of results that could be read.
pub open spec fn plain_views(plain: Seq<Option<String>>) -> Seq<Option<Seq<char>>> {
    plain.map_values(|o: Option<String>| opt_text(o))
}

/// A result that is shown.
struct Line {
    row: ResultRow,
    text: String,
    kind: MessageType,
}

/// The model of a line.
closed spec fn line_view(l: Line) -> LineV {
    LineV { row: l.row@, text: l.text@, kind: l.kind }
}

/// The models of a list of lines.
closed spec fn line_views(v: Seq<Line>) -> Seq<LineV> {
    v.map_values(|l: Line| line_view(l))
}

/// The results that are shown.
fn pick_lines(rows: Vec<ResultRow>, hidden: &Vec<bool>, plain: &Vec<Option<String>>) -> (r: Vec<Line>)
    requires
        hidden@.len() == rows@.len(),
        plain@.len() == rows@.len(),
    ensures
        line_views(r@) == lines_shown_of(row_views(rows@), hidden@, plain_views(plain@)),
{
    let ghost all = row_views(rows@);
    let ghost pv = plain_views(plain@);
    let n: usize = hidden.len();
    let mut rest = rows;
    let mut r: Vec<Line> = Vec::new();
    let mut i: usize = 0;
    assert(all.take(0) =~= Seq::<ResultRowV>::empty());
    assert(line_views(r@) =~= Seq::<LineV>::empty());
    while rest.len() > 0
        invariant
            n == all.len(),
            n == hidden@.len(),
            n == plain@.len(),
            pv == plain_views(plain@),
            i + rest@.len() == n,
            forall|k: int| 0 <= k < rest@.len() ==> (#[trigger] rest@[k])@ == all[i + k],
            line_views(r@) == lines_shown_of(all.take(i as int), hidden@, pv),
        decreases rest@.len(),
    {
        let ghost were = rest@;
        let row = rest.remove(0);
        proof {
            assert(row@ == were[0]@);
            assert forall|k: int| 0 <= k < rest@.len() implies (#[trigger] rest@[k])@ == all[i + 1 + k] by {
                assert(rest@[k] == were[k + 1]);
            }
            assert(all.take(i + 1).drop_last() =~= all.take(i as int));
            assert(all.take(i + 1).last() == row@);
            assert(pv[i as int] == opt_text(plain@[i as int]));
        }
        if !hidden[i] {
            match &plain[i] {
                None => {},
                Some(text) => match show_text(text.as_str()) {
                    None => {},
                    Some((t, action)) => {
                        let ghost was = line_views(r@);
                        let kind = if action {
                            MessageType::Action
                        } else if row.notice {
                            MessageType::Notice
                        } else {
                            MessageType::Message
                        };
                        let line = Line { row, text: t, kind };
                        let ghost lv = line_view(line);
                        r.push(line);
                        assert(line_views(r@) =~= was.push(lv));
                    },
                },
            }
        }
        i = i + 1;
    }
    assert(all.take(n as int) =~= all);
    r
}

/// What is said above the results.
pub open spec fn heading(count: nat, context: bool, target: Seq<char>) -> Seq<char> {
    decimal_seq(count) + " "@ + (if context {
        "context messages"@
    } else {
        "search results"@
    }) + " in "@ + target
        + "; /bsearch context <row> opens surrounding history (rows count from 1)"@
}

/// What is said where some results could not be shown.
pub const NOT_ALL_SHOWN: &'static str =
    "Some protocol messages or encrypted rows could not be displayed; server-side text matching cannot search encrypted plaintext";

/// A result as it is remembered.
pub open spec fn remembered(row: SearchRow, l: LineV, target: Seq<char>, scope: Seq<char>) -> bool {
    &&& row.target@ == target
    &&& row.scope@ == scope
    &&& row.at_ms == l.row.at_ms
    &&& opt_text(row.msgid) == l.row.msgid
}

/// Results were shown: where some could not be, that is said; then comes the heading, then the lines,
/// and each is remembered so that what stands around it can be asked for.
pub open spec fn results_shown(
    s0: AppState,
    s1: AppState,
    q0: Searches,
    q1: Searches,
    id: Seq<char>,
    target: Seq<char>,
    context: bool,
    view: Seq<char>,
    lines: Seq<LineV>,
    raw: nat,
    scope: Seq<char>,
    now_ms: i64,
) -> bool {
    exists|a: AppState, b: AppState|
        {
            &&& if lines.len() < raw {
                noted(q0.views@, s0, a, id, NOT_ALL_SHOWN@, now_ms)
            } else {
                a == s0
            }
            &&& #[trigger] noted(q0.views@, a, b, id, heading(lines.len(), context, target), now_ms)
            &&& lines_added(b, s1, view, lines)
            &&& q1 == (Searches { rows: q1.rows, ..q0 })
            &&& q1.rows@ == q0.rows@.insert(id, q1.rows@[id])
            &&& q1.rows@[id]@.len() == lines.len()
            &&& forall|i: int|
                0 <= i < lines.len() ==> remembered(
                    #[trigger] q1.rows@[id]@[i],
                    lines[i],
                    target,
                    scope,
                )
        }
}

/// Counts the results that are not those of people that the user hides.
fn count_unhidden(hidden: &Vec<bool>) -> (r: usize)
    ensures
        r == unhidden(hidden@),
        r <= hidden@.len(),
{
    let mut r: usize = 0;
    let mut i: usize = 0;
    assert(hidden@.take(0) =~= Seq::<bool>::empty());
    while i < hidden.len()
        invariant
            i <= hidden@.len(),
            r <= i,
            r == unhidden(hidden@.take(i as int)),
        decreases hidden@.len() - i,
    {
        assert(hidden@.take(i + 1).drop_last() =~= hidden@.take(i as int));
        assert(hidden@.take(i + 1).last() == hidden@[i as int]);
        if !hidden[i] {
            r = r + 1;
        }
        i = i + 1;
    }
    assert(hidden@.take(hidden@.len() as int) =~= hidden@);
    r
}

/// Adds lines to the view, and remembers each.
fn add_lines(state: &mut AppState, view: &str, lines: Vec<Line>, target: &str, scope: &str) -> (r: Vec<
    SearchRow,
>)
    ensures
        lines_added(*old(state), *final(state), view@, line_views(lines@)),
        r@.len() == lines@.len(),
        forall|i: int|
            0 <= i < lines@.len() ==> remembered(
                #[trigger] r@[i],
                line_views(lines@)[i],
                target@,
                scope@,
            ),
{
    let ghost before = *state;
    let ghost all = line_views(lines@);
    let ghost n = lines@.len();
    let mut rest = lines;
    let mut r: Vec<SearchRow> = Vec::new();
    assert(all.take(0) =~= Seq::<LineV>::empty());
    while rest.len() > 0
        invariant
            n == all.len(),
            r@.len() + rest@.len() == n,
            forall|k: int| 0 <= k < rest@.len() ==> line_view(#[trigger] rest@[k]) == all[r@.len() + k],
            forall|k: int|
                0 <= k < r@.len() ==> remembered(#[trigger] r@[k], all[k], target@, scope@),
            lines_added(before, *state, view@, all.take(r@.len() as int)),
        decreases rest@.len(),
    {
        let ghost were = rest@;
        let ghost i: int = r@.len() as int;
        let Line { row, text, kind } = rest.remove(0);
        let ghost lv = all[i as int];
        proof {
            assert(line_view(were[0]) == all[i as int]);
            assert forall|k: int| 0 <= k < rest@.len() implies line_view(#[trigger] rest@[k])
                == all[i + 1 + k] by {
                assert(rest@[k] == were[k + 1]);
            }
            assert(all.take(i + 1).drop_last() =~= all.take(i as int));
            assert(all.take(i + 1).last() == lv);
        }
        let ghost middle = *state;
        let remember = SearchRow {
            target: target.to_string(),
            scope: scope.to_string(),
            at_ms: row.at_ms,
            msgid: row.msgid.clone(),
        };
        let number: u64 = state.next_message_id();
        let message = Message {
            id: number,
            at_ms: row.at_ms,
            message_type: kind,
            nick: Some(row.nick),
            nick_mode: None,
            text,
            highlight: false,
            event_key: None,
            event_params: Vec::new(),
            msgid: row.msgid,
        };
        assert(message@ =~= line_v(number, lv));
        state.add_message(view, message);
        assert(line_added(middle, *state, view@, lv));
        r.push(remember);
    }
    assert(all.take(n as int) =~= all);
    r
}

/// Shows results. `hidden` tells which are of people that the user hides, `plain` holds the texts that
/// could be read.
pub fn show_results(
    searches: &mut Searches,
    state: &mut AppState,
    id: &str,
    target: &str,
    context: bool,
    view: &str,
    rows: Vec<ResultRow>,
    hidden: &Vec<bool>,
    plain: &Vec<Option<String>>,
    scope: &str,
    now_ms: i64,
)
    requires
        hidden@.len() == rows@.len(),
        plain@.len() == rows@.len(),
    ensures
        results_shown(
            *old(state),
            *final(state),
            *old(searches),
            *final(searches),
            id@,
            target@,
            context,
            view@,
            lines_shown_of(row_views(rows@), hidden@, plain_views(plain@)),
            unhidden(hidden@),
            scope@,
            now_ms,
        ),
{
    let ghost s0 = *state;
    let ghost q0 = *searches;
    let raw: usize = count_unhidden(hidden);
    let ghost lv = lines_shown_of(row_views(rows@), hidden@, plain_views(plain@));
    let lines = pick_lines(rows, hidden, plain);
    assert(lv.len() == lines@.len());
    let count: usize = lines.len();
    if count < raw {
        search_note(&searches.views, state, id, NOT_ALL_SHOWN, now_ms);
    }
    let ghost a = *state;
    let number = decimal(count as u64);
    let what = if context {
        "context messages"
    } else {
        "search results"
    };
    let head = concat3(number.as_str(), " ", what);
    let middle = concat3(head.as_str(), " in ", target);
    let text = crate::text::concat(
        middle.as_str(),
        "; /bsearch context <row> opens surrounding history (rows count from 1)",
    );
    assert(text@ =~= heading(lv.len(), context, target@));
    search_note(&searches.views, state, id, text.as_str(), now_ms);
    let ghost b = *state;
    assert(noted(q0.views@, a, b, id@, heading(lv.len(), context, target@), now_ms));
    let kept = add_lines(state, view, lines, target, scope);
    searches.rows.insert(id.to_string(), kept);
}

/// What stands around a message of a conversation was asked for.
pub open spec fn context_pending(q: Searches, state: AppState, id: Seq<char>, target: Seq<char>) -> bool {
    let mapping = state.connections@[id].casemapping@;
    &&& q.pending@.contains_key(id)
    &&& q.pending@[id].context
    &&& state.connections@.contains_key(id)
    &&& folded(q.pending@[id].target@, mapping) == folded(target, mapping)
}

/// Whether what stands around a message of a conversation was asked for.
pub fn search_context_pending(searches: &Searches, state: &AppState, id: &str, target: &str) -> (r: bool)
    ensures
        r == context_pending(*searches, *state, id@, target@),
{
    match (searches.pending.get(id), state.connections.get(id)) {
        (Some(p), Some(c)) => {
            let mapping = c.casemapping.as_str();
            p.context && same(
                casefold(p.target.as_str(), mapping).as_str(),
                casefold(target, mapping).as_str(),
            )
        },
        _ => false,
    }
}

/// A message or a notice.
pub open spec fn said(m: NumberedV) -> bool {
    m.message.command.verb == "PRIVMSG"@ || m.message.command.verb == "NOTICE"@
}

/// The messages and notices of a list.
pub open spec fn all_said(list: Seq<NumberedV>) -> Seq<NumberedV>
    decreases list.len(),
{
    if list.len() == 0 {
        Seq::empty()
    } else {
        let init = all_said(list.drop_last());
        if said(list.last()) {
            init.push(list.last())
        } else {
            init
        }
    }
}

/// Leaves only the messages and notices of a list.
fn keep_said(list: Vec<Numbered>) -> (r: Vec<Numbered>)
    ensures
        numbered_views(r@) == all_said(numbered_views(list@)),
{
    let ghost all = numbered_views(list@);
    let ghost mut n: int = 0;
    let mut rest = list;
    let mut r: Vec<Numbered> = Vec::new();
    assert(all.take(0) =~= Seq::<NumberedV>::empty());
    assert(numbered_views(r@) =~= Seq::<NumberedV>::empty());
    while rest.len() > 0
        invariant
            0 <= n,
            n + rest@.len() == all.len(),
            forall|k: int| 0 <= k < rest@.len() ==> (#[trigger] rest@[k])@ == all[n + k],
            numbered_views(r@) == all_said(all.take(n)),
        decreases rest@.len(),
    {
        let ghost were = rest@;
        let m = rest.remove(0);
        let ghost mv = m@;
        proof {
            assert(mv == were[0]@);
            assert forall|k: int| 0 <= k < rest@.len() implies (#[trigger] rest@[k])@ == all[n + 1 + k] by {
                assert(rest@[k] == were[k + 1]);
            }
            assert(all.take(n + 1).drop_last() =~= all.take(n));
            assert(all.take(n + 1).last() == mv);
            n = n + 1;
        }
        let verb = m.message.command.verb.as_str();
        if same(verb, "PRIVMSG") || same(verb, "NOTICE") {
            let ghost was = numbered_views(r@);
            r.push(m);
            assert(numbered_views(r@) =~= was.push(mv));
        }
    }
    assert(all.take(n) =~= all);
    r
}

/// How an answer with history concerns the search of a connection.
pub open spec fn context_of(q: Searches, s: AppState, id: Seq<char>, b: BatchV) -> ContextMatch {
    context_match(
        if q.pending@.contains_key(id) {
            Some(q.pending@[id])
        } else {
            None
        },
        b,
        context_pending(q, s, id, b.params[0]),
    )
}

/// An answer with history without what a search does not show, where it is the search's.
pub open spec fn offered(q: Searches, s: AppState, id: Seq<char>, b: BatchV) -> BatchV {
    if context_of(q, s, id, b) == ContextMatch::Current {
        BatchV { messages: all_said(b.messages), ..b }
    } else {
        b
    }
}

/// What an answer with history leads to: the one that was asked for is shown as results, one that nobody
/// waits for any more is taken and forgotten, and any other is history as usual. `taken` tells whether
/// it was a search's.
pub open spec fn context_received(
    s0: AppState,
    s1: AppState,
    q0: Searches,
    q1: Searches,
    b0: BatchV,
    b1: BatchV,
    id: Seq<char>,
    clean_end: bool,
    channel_types: Seq<char>,
    now: Clock,
    taken: bool,
    r: Answer,
) -> bool {
    &&& b1 == offered(q0, s0, id, b0)
    &&& match context_of(q0, s0, id, b0) {
        ContextMatch::Other => !taken && r is Nothing && s1 == s0 && q1 == q0,
        ContextMatch::Late => taken && r is Nothing && s1 == s0 && q1 == q0,
        ContextMatch::Current => {
            &&& taken
            &&& exists|middle: AppState|
                {
                    &&& if clean_end {
                        context_over(s0, middle, id, b0.params[0])
                    } else {
                        middle == s0
                    }
                    &&& #[trigger] answer_received(
                        middle,
                        s1,
                        q0,
                        q1,
                        id,
                        b1,
                        clean_end,
                        channel_types,
                        now,
                        r,
                    )
                }
        },
    }
}

/// Offers an answer with history to the search of a connection. Tells whether it was the search's.
pub fn receive_search_context(
    searches: &mut Searches,
    state: &mut AppState,
    id: &str,
    batch: &mut BatchInfo,
    clean_end: bool,
    channel_types: &str,
    now: Clock,
) -> (r: (bool, Answer))
    ensures
        context_received(
            *old(state),
            *final(state),
            *old(searches),
            *final(searches),
            old(batch)@,
            final(batch)@,
            id@,
            clean_end,
            channel_types@,
            now,
            r.0,
            r.1,
        ),
{
    let ghost b0 = batch@;
    assert(b0.params.len() == batch.params@.len());
    let asked = if batch.params.len() > 0 {
        assert(b0.params[0] == batch.params@[0]@);
        search_context_pending(searches, state, id, batch.params[0].as_str())
    } else {
        false
    };
    match match_context(searches, id, batch, asked) {
        ContextMatch::Other => (false, Answer::Nothing),
        ContextMatch::Late => (true, Answer::Nothing),
        ContextMatch::Current => {
            if clean_end {
                end_context(state, id, batch.params[0].as_str());
            }
            let ghost middle = *state;
            let mut messages: Vec<Numbered> = Vec::new();
            std::mem::swap(&mut messages, &mut batch.messages);
            batch.messages = keep_said(messages);
            assert(batch@ =~= (BatchV { messages: all_said(b0.messages), ..b0 }));
            let answer = receive_search_results(
                searches,
                state,
                id,
                batch,
                clean_end,
                channel_types,
                now,
            );
            assert(answer_received(
                middle,
                *state,
                *old(searches),
                *searches,
                id@,
                batch@,
                clean_end,
                channel_types@,
                now,
                answer,
            ));
            (true, answer)
        },
    }
}

/// No result is shown in part: an answer with a message that is no result shows nothing.
pub proof fn answers_are_whole(
    s0: AppState,
    s1: AppState,
    q0: Searches,
    q1: Searches,
    id: Seq<char>,
    b: BatchV,
    clean_end: bool,
    channel_types: Seq<char>,
    now: Clock,
    r: Answer,
)
    requires
        answer_received(s0, s1, q0, q1, id, b, clean_end, channel_types, now, r),
    ensures
        r matches Answer::Results { rows, .. } ==> {
            &&& clean_end
            &&& b.dropped == 0
            &&& rows@.len() == b.messages.len()
            &&& rows@.len() <= q0.pending@[id].limit
        },
{
    if r is Results {
        let (qm, sm) = choose|qm: Searches, sm: AppState|
            {
                &&& #[trigger] searches_ticked(q0, qm, s0, sm, now)
                &&& answer_taken(sm, s1, qm, q1, id, b, clean_end, channel_types, now.utc_ms, r)
            };
        lemma_ticked_keeps(
            q0.pending@,
            qm.pending@,
            qm.views@,
            s0,
            sm,
            q0.pending.keys(),
            now,
            id,
        );
        let p = qm.pending@[id];
        let want = results_of(b, p.target@, sm.connections@[id].casemapping@, channel_types)->0;
        assert(row_views(r->rows@) == want);
        assert(row_views(r->rows@).len() == r->rows@.len());
    }
}

/// An answer that comes too late is not shown.
pub proof fn late_answers_are_not_shown(
    s0: AppState,
    s1: AppState,
    q0: Searches,
    q1: Searches,
    id: Seq<char>,
    b: BatchV,
    clean_end: bool,
    channel_types: Seq<char>,
    now: Clock,
    r: Answer,
)
    requires
        answer_received(s0, s1, q0, q1, id, b, clean_end, channel_types, now, r),
        q0.pending.ordered(),
        q0.pending@.contains_key(id),
        now.mono_ms - q0.pending@[id].started > SEARCH_MS,
    ensures
        r is Nothing,
{
    let (qm, sm) = choose|qm: Searches, sm: AppState|
        {
            &&& #[trigger] searches_ticked(q0, qm, s0, sm, now)
            &&& answer_taken(sm, s1, qm, q1, id, b, clean_end, channel_types, now.utc_ms, r)
        };
    let ids = q0.pending.keys();
    let i = ids.index_of(id);
    assert(ids[i] == id);
    lemma_late_is_given_up(q0.pending@, qm.pending@, qm.views@, s0, sm, ids, now, id);
}

/// Answers in time are shown. Where the request of a connection is still wanted and its view open, a complete
/// answer with no more messages than were asked for is shown whole and in its order, as long as every message
/// is something that somebody said, at a known time, in the conversation that was searched.
pub proof fn answers_in_time_are_shown(
    s0: AppState,
    s1: AppState,
    q0: Searches,
    q1: Searches,
    id: Seq<char>,
    b: BatchV,
    channel_types: Seq<char>,
    now_ms: i64,
    r: Answer,
)
    requires
        answer_taken(s0, s1, q0, q1, id, b, true, channel_types, now_ms, r),
        q0.pending@.contains_key(id),
        !q0.pending@[id].discard,
        !q0.pending@[id].context,
        b.started_at >= q0.pending@[id].started,
        b.dropped == 0,
        b.messages.len() <= q0.pending@[id].limit,
        view_of(q0.views@, s0, id) is Some,
        s0.connections@.contains_key(id),
        forall|i: int|
            0 <= i < b.messages.len() ==> {
                let m = (#[trigger] b.messages[i]).message;
                &&& m.command.verb == "PRIVMSG"@ || m.command.verb == "NOTICE"@
                &&& m.command.params.len() == 2
                &&& m.command.params[0] == q0.pending@[id].target@
                &&& m.source is Some
                &&& last_value(m.command.tags, "time"@) is Some
                &&& rfc3339_parsed(last_value(m.command.tags, "time"@)->0) is Some
            },
    ensures
        r matches Answer::Results { rows, view, .. } && rows@.len() == b.messages.len() && Some(view@) == view_of(
            q0.views@,
            s0,
            id,
        ) && forall|i: int|
            0 <= i < rows@.len() ==> (#[trigger] rows@[i]).text@ == b.messages[i].message.command.params[1]
                && rows@[i].nick@ == (b.messages[i].message.source->0).nick && rows@[i].notice == (
            b.messages[i].message.command.verb == "NOTICE"@),
        !q1.pending@.contains_key(id),
{
    let p = q0.pending@[id];
    let mapping = s0.connections@[id].casemapping@;
    assert(all_results(b, p.target@, mapping, channel_types));
    let want = results_of(b, p.target@, mapping, channel_types)->0;
    if r is Results {
        let rows = r->rows@;
        assert(row_views(rows) == want);
        assert(row_views(rows).len() == rows.len());
        assert forall|i: int| 0 <= i < rows.len() implies (#[trigger] rows[i]).text@
            == b.messages[i].message.command.params[1] && rows[i].nick@ == (b.messages[i].message.source->0).nick
            && rows[i].notice == (b.messages[i].message.command.verb == "NOTICE"@) by {
            assert(row_views(rows)[i] == want[i]);
            assert(row_of(b.messages[i].message, p.target@, mapping, channel_types) is Some);
        }
    }
}

/// What is found is shown: a row that is not hidden and that could be read stands among the lines with its
/// words, and every line is of such a row.
pub proof fn rows_that_can_be_shown_are(
    rows: Seq<ResultRowV>,
    hidden: Seq<bool>,
    plain: Seq<Option<Seq<char>>>,
    i: int,
)
    requires
        0 <= i < rows.len(),
        hidden.len() == rows.len(),
        plain.len() == rows.len(),
    ensures
        !hidden[i] && plain[i] is Some && (plain[i]->0.len() == 0 || plain[i]->0[0] != '\u{1}') ==> exists|k: int|
            0 <= k < lines_shown_of(rows, hidden, plain).len() && (#[trigger] lines_shown_of(
                rows,
                hidden,
                plain,
            )[k]).row == rows[i] && lines_shown_of(rows, hidden, plain)[k].text == plain[i]->0,
        forall|k: int|
            0 <= k < lines_shown_of(rows, hidden, plain).len() ==> exists|j: int|
                0 <= j < rows.len() && !hidden[j] && plain[j] is Some && rows[j] == (#[trigger] lines_shown_of(
                    rows,
                    hidden,
                    plain,
                )[k]).row,
        lines_shown_of(rows, hidden, plain).len() <= rows.len(),
{
    lemma_rows_shown(rows, hidden, plain, i);
}

proof fn lemma_rows_shown(
    rows: Seq<ResultRowV>,
    hidden: Seq<bool>,
    plain: Seq<Option<Seq<char>>>,
    i: int,
)
    ensures
        0 <= i < rows.len() && !hidden[i] && plain[i] is Some && (plain[i]->0.len() == 0 || plain[i]->0[0]
            != '\u{1}') ==> exists|k: int|
            0 <= k < lines_shown_of(rows, hidden, plain).len() && (#[trigger] lines_shown_of(
                rows,
                hidden,
                plain,
            )[k]).row == rows[i] && lines_shown_of(rows, hidden, plain)[k].text == plain[i]->0,
        forall|k: int|
            0 <= k < lines_shown_of(rows, hidden, plain).len() ==> exists|j: int|
                0 <= j < rows.len() && !hidden[j] && plain[j] is Some && rows[j] == (#[trigger] lines_shown_of(
                    rows,
                    hidden,
                    plain,
                )[k]).row,
        lines_shown_of(rows, hidden, plain).len() <= rows.len(),
    decreases rows.len(),
{
    if rows.len() > 0 {
        let rest = rows.drop_last();
        let n = rows.len() - 1;
        lemma_rows_shown(rest, hidden, plain, i);
        let init = lines_shown_of(rest, hidden, plain);
        let all = lines_shown_of(rows, hidden, plain);
        assert forall|k: int| 0 <= k < all.len() implies exists|j: int|
            0 <= j < rows.len() && !hidden[j] && plain[j] is Some && rows[j] == (#[trigger] all[k]).row by {
            if k < init.len() {
                assert(all[k] == init[k]);
                let j = choose|j: int|
                    0 <= j < rest.len() && !hidden[j] && plain[j] is Some && rest[j] == init[k].row;
                assert(rows[j] == rest[j]);
            } else {
                assert(rows[n] == all[k].row);
            }
        }
        if 0 <= i < rows.len() && !hidden[i] && plain[i] is Some && (plain[i]->0.len() == 0 || plain[i]->0[0]
            != '\u{1}') {
            if i < n {
                assert(rest[i] == rows[i]);
                let k = choose|k: int|
                    0 <= k < init.len() && (#[trigger] init[k]).row == rest[i] && init[k].text == plain[i]->0;
                assert(all[k] == init[k]);
            } else {
                assert(all[all.len() - 1].row == rows[i]);
                assert(all[all.len() - 1].text == plain[i]->0);
            }
        }
    }
}

/// The lines of an answer stand in the view in their order, one behind the other, below what stood there.
pub proof fn lines_stand_in_order(before: AppState, after: AppState, view: Seq<char>, lines: Seq<LineV>, i: int)
    requires
        lines_added(before, after, view, lines),
        before.buffers@.contains_key(view),
    ensures
        after.buffers@.contains_key(view),
        before.buffers@[view].messages@.is_prefix_of(after.buffers@[view].messages@),
        after.buffers@[view].messages@.len() == before.buffers@[view].messages@.len() + lines.len(),
        0 <= i < lines.len() ==> after.buffers@[view].messages@[before.buffers@[view].messages@.len() + i].text@
            == lines[i].text,
    decreases lines.len(),
{
    if lines.len() > 0 {
        let rest = lines.drop_last();
        let middle = choose|middle: AppState|
            lines_added(before, middle, view, lines.drop_last()) && #[trigger] line_added(
                middle,
                after,
                view,
                lines.last(),
            );
        lines_stand_in_order(before, middle, view, rest, i);
        let b = before.buffers@[view].messages@;
        let m = middle.buffers@[view].messages@;
        let a = after.buffers@[view].messages@;
        let n = m.len() as int;
        assert(a[n + 0]@ == line_v(id_after(middle.message_counter), lines.last()));
        assert(b =~= a.subrange(0, b.len() as int)) by {
            assert forall|j: int| 0 <= j < b.len() implies b[j] == a[j] by {
                assert(b[j] == m.subrange(0, b.len() as int)[j]);
                assert(m[j] == a.take(n)[j]);
            }
        }
        if 0 <= i < rest.len() {
            assert(rest[i] == lines[i]);
            assert(a.take(n)[b.len() + i] == a[b.len() + i]);
        }
    }
}

/// Names that a server takes for the same are the same here: letters in either case, and the brackets that
/// stand for letters where the server says so. A name that is folded already stays as it is.
pub proof fn case_does_not_matter(c: char, mapping: Seq<char>)
    ensures
        fold_char(fold_char(c, mapping), mapping) == fold_char(c, mapping),
        'A' <= c <= 'Z' ==> fold_char(c, mapping) == fold_char(((c as u32) + 32) as char, mapping),
        'a' <= c <= 'z' || '0' <= c <= '9' || c == '#' || c == '-' || c == '_' ==> fold_char(c, mapping) == c,
        mapping == "rfc1459"@ ==> fold_char('[', mapping) == fold_char('{', mapping) && fold_char(']', mapping)
            == fold_char('}', mapping) && fold_char('~', mapping) == fold_char('^', mapping),
        mapping == "ascii"@ ==> fold_char('[', mapping) != fold_char('{', mapping),
{
    reveal_strlit("rfc1459");
    reveal_strlit("strict-rfc1459");
    reveal_strlit("ascii");
    if mapping == "rfc1459"@ {
        assert("rfc1459"@.len() != "ascii"@.len());
        assert("rfc1459"@.len() != "strict-rfc1459"@.len());
    }
}

} // verus!
