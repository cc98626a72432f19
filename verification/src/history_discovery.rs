//! Finding the conversations that a bouncer keeps, and filling them after a connection.
use vstd::prelude::*;

use crate::app::{handle_took, lemma_took_one, Clock, IrcHandle};
use crate::batch::{has_tag, tagged, BatchInfo, BatchV};
use crate::chathistory::{clamp_limit, clamped, ChatHistory};
use crate::collections::{StrMap, StrSet};
use crate::irc::{add_event_to_buffer, event_added, open_buffer, opened};
use crate::keyring::{channel_target, is_channel_target};
use crate::paste::{control, is_control};
use crate::state::{buffer_id_seq, make_buffer_id, AppState, BufferType, Connection, ConnectionStatus};
use crate::text::{
    chars_of, concat, decimal, decimal_seq, is_space, lower, lower_seq, opt_text, same_ignoring_case,
    space_char, texts,
};
use crate::times::{parse_rfc3339_millis, rfc3339_millis, rfc3339_parsed, rfc3339_seq};
use crate::wire::{untagged, Command, CommandV};

verus! {

broadcast use vstd::string::group_string_axioms;

/// The most conversations to ask for at once.
pub const DISCOVERY_LIMIT: u64 = 1000;

/// How far ahead of the client's clock the server's may be, in milliseconds.
pub const CLOCK_SLACK_MS: i64 = 5_000;

/// How long a question may go unanswered, in milliseconds.
pub const ANSWER_MS: u64 = 35_000;

/// The time between two questions, in milliseconds.
pub const RETRY_MS: u64 = 5_000;

/// How often anything is tried.
pub const MAX_TRIES: u64 = 3;

/// How many requests of one connection may be under way.
pub const PER_CONNECTION: usize = 2;

/// How many requests may be under way in all.
pub const IN_ALL: usize = 8;

/// A conversation that a bouncer keeps.
#[derive(Debug)]
pub struct HistoryTarget {
    pub name: String,
    /// When the last message was said, in milliseconds since the Unix epoch.
    pub at_ms: i64,
}

/// The model of a [`HistoryTarget`].
pub struct HistoryTargetV {
    pub name: Seq<char>,
    pub at_ms: i64,
}

impl View for HistoryTarget {
    type V = HistoryTargetV;

    open spec fn view(&self) -> HistoryTargetV {
        HistoryTargetV { name: self.name@, at_ms: self.at_ms }
    }
}

/// The models of a list of conversations.
pub open spec fn target_views(v: Seq<HistoryTarget>) -> Seq<HistoryTargetV> {
    v.map_values(|t: HistoryTarget| t@)
}

/// Whether a text can name a conversation.
pub open spec fn target_name(s: Seq<char>) -> bool {
    &&& s.len() > 0
    &&& s[0] != ':'
    &&& forall|i: int| 0 <= i < s.len() ==> !space_char(#[trigger] s[i]) && !control(s[i])
}

/// Whether a text can name a conversation.
pub fn is_target_name(s: &str) -> (r: bool)
    ensures
        r == target_name(s@),
{
    let v = chars_of(s);
    if v.len() == 0 || v[0] == ':' {
        return false;
    }
    let mut i: usize = 0;
    while i < v.len()
        invariant
            v@ == s@,
            i <= v@.len(),
            forall|j: int| 0 <= j < i ==> !space_char(#[trigger] s@[j]) && !control(s@[j]),
        decreases v@.len() - i,
    {
        if is_space(v[i]) || is_control(v[i]) {
            assert(space_char(s@[i as int]) || control(s@[i as int]));
            return false;
        }
        i = i + 1;
    }
    true
}

/// The conversation that a row names, where it is well formed and inside the window.
pub open spec fn row_target(c: CommandV, upper_ms: i64) -> Option<HistoryTargetV> {
    if lower_seq(c.verb) == lower_seq("CHATHISTORY"@) && c.params.len() == 3 && lower_seq(c.params[0])
        == lower_seq("TARGETS"@) && target_name(c.params[1]) {
        match rfc3339_parsed(c.params[2]) {
            Some(time) if 0 < time < upper_ms => Some(
                HistoryTargetV { name: c.params[1], at_ms: time },
            ),
            _ => None,
        }
    } else {
        None
    }
}

/// The conversation that a row names.
fn decode_row(c: &Command, upper_ms: i64) -> (r: Option<HistoryTarget>)
    ensures
        match r {
            Some(t) => row_target(c@, upper_ms) == Some(t@),
            None => row_target(c@, upper_ms) is None,
        },
{
    assert(c@.params.len() == c.params@.len());
    if !same_ignoring_case(c.verb.as_str(), "CHATHISTORY") || c.params.len() != 3 {
        return None;
    }
    assert(c@.params[0] == c.params@[0]@);
    assert(c@.params[1] == c.params@[1]@);
    assert(c@.params[2] == c.params@[2]@);
    if !same_ignoring_case(c.params[0].as_str(), "TARGETS") || !is_target_name(c.params[1].as_str()) {
        return None;
    }
    match parse_rfc3339_millis(c.params[2].as_str()) {
        None => None,
        Some(time) => if time <= 0 || time >= upper_ms {
            None
        } else {
            Some(HistoryTarget { name: c.params[1].clone(), at_ms: time })
        },
    }
}

/// Every row of an answer names a conversation.
pub open spec fn all_rows(b: BatchV, upper_ms: i64) -> bool {
    forall|i: int|
        0 <= i < b.messages.len() ==> row_target(
            (#[trigger] b.messages[i]).message.command,
            upper_ms,
        ) is Some
}

/// The conversations of an answer: all rows, or none where any is wrong or one was lost.
pub open spec fn decoded(b: BatchV, upper_ms: i64) -> Option<Seq<HistoryTargetV>> {
    if b.dropped != 0 || !all_rows(b, upper_ms) {
        None
    } else {
        Some(
            Seq::new(
                b.messages.len(),
                |i: int| row_target(b.messages[i].message.command, upper_ms)->0,
            ),
        )
    }
}

/// The conversations of an answer.
pub fn decode_targets(batch: &BatchInfo, upper_ms: i64) -> (r: Option<Vec<HistoryTarget>>)
    ensures
        match r {
            Some(list) => decoded(batch@, upper_ms) == Some(target_views(list@)),
            None => decoded(batch@, upper_ms) is None,
        },
{
    if batch.dropped != 0 {
        return None;
    }
    let ghost b = batch@;
    let mut r: Vec<HistoryTarget> = Vec::new();
    let mut i: usize = 0;
    while i < batch.messages.len()
        invariant
            i <= batch.messages@.len(),
            b == batch@,
            b.messages.len() == batch.messages@.len(),
            r@.len() == i,
            forall|j: int|
                0 <= j < i ==> row_target((#[trigger] b.messages[j]).message.command, upper_ms)
                    == Some(r@[j]@),
        decreases batch.messages@.len() - i,
    {
        assert(b.messages[i as int] == batch.messages@[i as int]@);
        match decode_row(&batch.messages[i].message.command, upper_ms) {
            None => {
                assert(!all_rows(b, upper_ms));
                return None;
            },
            Some(t) => {
                r.push(t);
            },
        }
        i = i + 1;
    }
    proof {
        assert(all_rows(b, upper_ms));
        assert(target_views(r@) =~= decoded(b, upper_ms)->0) by {
            assert forall|j: int| 0 <= j < r@.len() implies target_views(r@)[j] == (decoded(
                b,
                upper_ms,
            )->0)[j] by {
                assert(row_target(b.messages[j].message.command, upper_ms) == Some(r@[j]@));
            }
        }
    }
    Some(r)
}

/// The search for the conversations of a connection.
pub struct HistoryDiscovery {
    /// When the question that is under way was sent, in monotonic milliseconds.
    pub pending: Option<u64>,
    pub discovery_started: bool,
    /// Only conversations from before this time are still to be asked for.
    pub upper_ms: i64,
    pub limit: u64,
    /// Conversations to fill.
    pub queue: Vec<String>,
    /// Conversations that are being filled.
    pub active: Vec<String>,
    pub hydration_attempts: StrMap<u64>,
    /// Conversations that were found, in lower case.
    pub seen: StrSet,
    pub finished: bool,
    pub incomplete: bool,
    pub attempts: u64,
    pub retry_at: u64,
}

/// Whether the conversations of a connection are to be found.
pub open spec fn discoverable(c: Connection) -> bool {
    &&& c.owns_history()
    &&& !c.origin_config.bouncer_control
    &&& c.enabled_caps@.contains("draft/chathistory"@)
}

/// A time plus a span, which stops at the largest value.
pub open spec fn later(ms: i64, span: i64) -> i64 {
    if ms + span > i64::MAX {
        i64::MAX
    } else {
        (ms + span) as i64
    }
}

/// Adds a span to a time.
fn add_span(ms: i64, span: i64) -> (r: i64)
    requires
        span >= 0,
    ensures
        r == later(ms, span),
{
    if ms > i64::MAX - span {
        i64::MAX
    } else {
        ms + span
    }
}

/// A search that has not begun.
pub open spec fn fresh_discovery(d: HistoryDiscovery, c: Connection, now: Clock) -> bool {
    &&& d.pending is None
    &&& !d.discovery_started
    &&& d.upper_ms == later(now.utc_ms, CLOCK_SLACK_MS)
    &&& d.limit == clamped(DISCOVERY_LIMIT, c.chathistory_max)
    &&& d.queue@.len() == 0
    &&& d.active@.len() == 0
    &&& d.hydration_attempts@ == Map::<Seq<char>, u64>::empty()
    &&& d.seen@ == Set::<Seq<char>>::empty()
    &&& !d.finished
    &&& !d.incomplete
    &&& d.attempts == 0
    &&& d.retry_at == now.mono_ms
}

/// There is a search for a connection whose conversations are to be found.
pub open spec fn discovery_ensured(
    before: Map<Seq<char>, HistoryDiscovery>,
    after: Map<Seq<char>, HistoryDiscovery>,
    state: AppState,
    conn: Seq<char>,
    now: Clock,
    r: bool,
) -> bool {
    &&& r == (state.connections@.contains_key(conn) && discoverable(state.connections@[conn]))
    &&& if r && !before.contains_key(conn) {
        &&& after == before.insert(conn, after[conn])
        &&& fresh_discovery(after[conn], state.connections@[conn], now)
    } else {
        after == before
    }
}

/// Makes sure that there is a search for a connection whose conversations are to be found.
pub fn ensure_history_discovery(
    map: &mut StrMap<HistoryDiscovery>,
    state: &AppState,
    conn: &str,
    now: Clock,
) -> (r: bool)
    ensures
        discovery_ensured(old(map)@, final(map)@, *state, conn@, now, r),
{
    let c = match state.connections.get(conn) {
        None => {
            return false;
        },
        Some(c) => c,
    };
    if !c.server_owns_history() || c.origin_config.bouncer_control || !c.enabled_caps.contains(
        "draft/chathistory",
    ) {
        return false;
    }
    if !map.contains(conn) {
        map.insert(
            conn.to_string(),
            HistoryDiscovery {
                pending: None,
                discovery_started: false,
                upper_ms: add_span(now.utc_ms, CLOCK_SLACK_MS),
                limit: clamp_limit(DISCOVERY_LIMIT, c.chathistory_max),
                queue: Vec::new(),
                active: Vec::new(),
                hydration_attempts: StrMap::new(),
                seen: StrSet::new(),
                finished: false,
                incomplete: false,
                attempts: 0,
                retry_at: now.mono_ms,
            },
        );
    }
    true
}

/// The question for the conversations from before a time.
pub open spec fn targets_command(d: HistoryDiscovery) -> CommandV {
    untagged(
        "CHATHISTORY"@,
        seq![
            "TARGETS"@,
            "timestamp="@ + rfc3339_seq(d.upper_ms),
            "timestamp=1970-01-01T00:00:00.000Z"@,
            decimal_seq(d.limit as nat),
        ],
    )
}

/// What is said when the bouncer does not answer.
pub const DISCOVERY_FAILED: &'static str =
    "Bouncer conversation discovery failed after three attempts; reconnect to retry.";

/// What is said when the bouncer cannot tell all conversations.
pub const DISCOVERY_INCOMPLETE: &'static str =
    "Some conversations may be missing because the bouncer's history limit was reached. Open a known conversation by name to retrieve its history.";

/// A moment plus a span, which stops at the largest value.
pub open spec fn after_span(ms: u64, span: u64) -> u64 {
    if ms + span > u64::MAX {
        u64::MAX
    } else {
        (ms + span) as u64
    }
}

/// Whether the next question may be sent.
pub open spec fn may_ask(d: HistoryDiscovery, now: u64) -> bool {
    !d.finished && d.pending is None && now >= d.retry_at
}

/// A server buffer was told something, where the connection is still there.
pub open spec fn server_told(
    before: AppState,
    after: AppState,
    conn: Seq<char>,
    text: Seq<char>,
    now_ms: i64,
) -> bool {
    if before.connections@.contains_key(conn) {
        event_added(
            before,
            after,
            buffer_id_seq(conn, before.connections@[conn].label@),
            text,
            now_ms,
        )
    } else {
        after == before
    }
}

/// Tells the server buffer of a connection something.
pub fn tell_server_buffer(state: &mut AppState, conn: &str, text: &str, now_ms: i64)
    ensures
        server_told(*old(state), *final(state), conn@, text@, now_ms),
{
    let buffer = match state.connections.get(conn) {
        None => {
            return;
        },
        Some(c) => make_buffer_id(conn, c.label.as_str()),
    };
    add_event_to_buffer(state, buffer.as_str(), text.to_string(), now_ms);
}

/// The next question was sent, or given up after too many.
pub open spec fn asked(
    d0: HistoryDiscovery,
    d1: HistoryDiscovery,
    s0: AppState,
    s1: AppState,
    h0: Map<Seq<char>, IrcHandle>,
    h1: Map<Seq<char>, IrcHandle>,
    conn: Seq<char>,
    now: Clock,
) -> bool {
    if !may_ask(d0, now.mono_ms) {
        d1 == d0 && s1 == s0 && h1 == h0
    } else if d0.attempts >= MAX_TRIES {
        &&& d1 == (HistoryDiscovery { finished: true, ..d0 })
        &&& server_told(s0, s1, conn, DISCOVERY_FAILED@, now.utc_ms)
        &&& h1 == h0
    } else {
        &&& s1 == s0
        &&& d1 == (HistoryDiscovery {
            attempts: (d0.attempts + 1) as u64,
            retry_at: after_span(now.mono_ms, RETRY_MS),
            pending: if h0.contains_key(conn) && h0[conn].sender.open() {
                Some(now.mono_ms)
            } else {
                None
            },
            ..d0
        })
        &&& if h0.contains_key(conn) {
            &&& h1 == h0.insert(conn, h1[conn])
            &&& handle_took(h0[conn], h1[conn], seq![targets_command(d0)])
        } else {
            h1 == h0
        }
    }
}

/// Sends the next question for the conversations of a connection.
pub fn send_history_targets(
    d: &mut HistoryDiscovery,
    state: &mut AppState,
    handles: &mut StrMap<IrcHandle>,
    conn: &str,
    now: Clock,
)
    ensures
        asked(
            *old(d),
            *final(d),
            *old(state),
            *final(state),
            old(handles)@,
            final(handles)@,
            conn@,
            now,
        ),
        final(handles).keys() == old(handles).keys(),
{
    if d.finished || d.pending.is_some() || now.mono_ms < d.retry_at {
        return;
    }
    if d.attempts >= MAX_TRIES {
        d.finished = true;
        tell_server_buffer(state, conn, DISCOVERY_FAILED, now.utc_ms);
        return;
    }
    let mut params: Vec<String> = Vec::new();
    params.push("TARGETS".to_string());
    params.push(concat("timestamp=", rfc3339_millis(d.upper_ms).as_str()));
    params.push("timestamp=1970-01-01T00:00:00.000Z".to_string());
    params.push(decimal(d.limit));
    let command = Command { tags: Vec::new(), verb: "CHATHISTORY".to_string(), params };
    let ghost cv = command@;
    proof {
        assert(cv =~= targets_command(*d));
    }
    d.attempts = d.attempts + 1;
    d.retry_at = if now.mono_ms > u64::MAX - RETRY_MS {
        u64::MAX
    } else {
        now.mono_ms + RETRY_MS
    };
    match handles.get_mut(conn) {
        None => {},
        Some(handle) => {
            let ghost s0 = handle.sender;
            let sent = handle.sender.send(command).is_ok();
            proof {
                lemma_took_one(s0, handle.sender, cv);
            }
            if sent {
                d.pending = Some(now.mono_ms);
            }
        },
    }
}

/// Starts the search for the conversations of a connection, once per connection; the caller sends the
/// first question.
pub fn start_history_discovery(
    map: &mut StrMap<HistoryDiscovery>,
    state: &AppState,
    conn: &str,
    now: Clock,
) -> (r: bool)
    ensures
        exists|middle: Map<Seq<char>, HistoryDiscovery>, ready: bool|
            {
                &&& #[trigger] discovery_ensured(old(map)@, middle, *state, conn@, now, ready)
                &&& r == (ready && !middle[conn@].discovery_started)
                &&& if r {
                    &&& final(map)@ == middle.insert(conn@, final(map)@[conn@])
                    &&& final(map)@[conn@] == (HistoryDiscovery {
                        discovery_started: true,
                        limit: clamped(DISCOVERY_LIMIT, state.connections@[conn@].chathistory_max),
                        ..middle[conn@]
                    })
                } else {
                    final(map)@ == middle
                }
            },
{
    let ghost before = map@;
    let ready = ensure_history_discovery(map, state, conn, now);
    let ghost middle = map@;
    assert(discovery_ensured(before, middle, *state, conn@, now, ready));
    if !ready {
        return false;
    }
    let limit: u64 = match state.connections.get(conn) {
        Some(c) => clamp_limit(DISCOVERY_LIMIT, c.chathistory_max),
        None => DISCOVERY_LIMIT,
    };
    let started = match map.get(conn) {
        Some(d) => d.discovery_started,
        None => true,
    };
    if started {
        return false;
    }
    match map.get_mut(conn) {
        None => {},
        Some(d) => {
            d.discovery_started = true;
            d.limit = limit;
        },
    }
    true
}

/// A list names a conversation, in whatever case.
pub open spec fn names_target(list: Seq<Seq<char>>, target: Seq<char>) -> bool {
    exists|i: int| 0 <= i < list.len() && lower_seq(#[trigger] list[i]) == lower_seq(target)
}

/// Whether a list names a conversation, in whatever case.
fn has_target(list: &Vec<String>, target: &str) -> (r: bool)
    ensures
        r == names_target(texts(list@), target@),
{
    let mut i: usize = 0;
    while i < list.len()
        invariant
            i <= list@.len(),
            forall|j: int| 0 <= j < i ==> lower_seq(#[trigger] texts(list@)[j]) != lower_seq(target@),
        decreases list@.len() - i,
    {
        if same_ignoring_case(list[i].as_str(), target) {
            assert(lower_seq(texts(list@)[i as int]) == lower_seq(target@));
            return true;
        }
        i = i + 1;
    }
    false
}

/// A conversation was queued to be filled; one that is not being filled has all its tries again.
pub open spec fn queued(d0: HistoryDiscovery, d1: HistoryDiscovery, c: Connection, target: Seq<char>) -> bool {
    if names_target(texts(d0.queue@), target) {
        d1 == d0
    } else {
        &&& d1 == (HistoryDiscovery {
            queue: d1.queue,
            hydration_attempts: d1.hydration_attempts,
            ..d0
        })
        &&& texts(d1.queue@) == texts(d0.queue@).push(target)
        &&& d1.hydration_attempts@ == (if c.chathistory.pending(target) {
            d0.hydration_attempts@
        } else {
            d0.hydration_attempts@.remove(target)
        })
    }
}

/// Queues a conversation to be filled after a connection; a round follows. Without a backlog to show,
/// nothing is filled.
pub fn queue_connect_history(
    map: &mut StrMap<HistoryDiscovery>,
    state: &AppState,
    conn: &str,
    target: &str,
    backlog_lines: usize,
    now: Clock,
) -> (r: bool)
    ensures
        if backlog_lines == 0 {
            !r && final(map)@ == old(map)@
        } else {
            exists|middle: Map<Seq<char>, HistoryDiscovery>|
                {
                    &&& #[trigger] discovery_ensured(old(map)@, middle, *state, conn@, now, r)
                    &&& if r {
                        &&& final(map)@ == middle.insert(conn@, final(map)@[conn@])
                        &&& queued(
                            middle[conn@],
                            final(map)@[conn@],
                            state.connections@[conn@],
                            target@,
                        )
                    } else {
                        final(map)@ == middle
                    }
                }
        },
{
    if backlog_lines == 0 {
        return false;
    }
    let ghost before = map@;
    let ready = ensure_history_discovery(map, state, conn, now);
    let ghost middle = map@;
    assert(discovery_ensured(before, middle, *state, conn@, now, ready));
    if !ready {
        return false;
    }
    let pending = match state.connections.get(conn) {
        Some(c) => c.chathistory.any_in_flight(target),
        None => true,
    };
    match map.get_mut(conn) {
        None => {},
        Some(d) => {
            if !has_target(&d.queue, target) {
                if !pending {
                    let _tries = d.hydration_attempts.remove(target);
                }
                let ghost was = texts(d.queue@);
                d.queue.push(target.to_string());
                assert(texts(d.queue@) =~= was.push(target@));
            }
        },
    }
    assert(map@ =~= middle.insert(conn@, map@[conn@]));
    true
}

/// The earliest of some times.
pub open spec fn earliest(targets: Seq<HistoryTargetV>) -> i64
    decreases targets.len(),
{
    if targets.len() <= 1 {
        targets[0].at_ms
    } else {
        let rest = earliest(targets.drop_last());
        if targets.last().at_ms < rest {
            targets.last().at_ms
        } else {
            rest
        }
    }
}

/// The earliest of some times.
fn earliest_of(targets: &Vec<HistoryTarget>) -> (r: i64)
    requires
        targets@.len() > 0,
    ensures
        r == earliest(target_views(targets@)),
{
    let ghost all = target_views(targets@);
    assert(all[0] == targets@[0]@);
    let mut r: i64 = targets[0].at_ms;
    let mut i: usize = 1;
    while i < targets.len()
        invariant
            1 <= i <= targets@.len(),
            all == target_views(targets@),
            r == earliest(all.take(i as int)),
        decreases targets@.len() - i,
    {
        assert(all.take(i + 1).drop_last() =~= all.take(i as int));
        assert(all.take(i + 1).last() == targets@[i as int]@);
        if targets[i].at_ms < r {
            r = targets[i].at_ms;
        }
        i = i + 1;
    }
    assert(all.take(all.len() as int) =~= all);
    r
}

/// The answer fills the whole window, so that more conversations may have stood at its edge.
pub open spec fn window_full(d: HistoryDiscovery, targets: Seq<HistoryTargetV>, ended: bool) -> bool {
    &&& targets.len() > 0
    &&& !(d.finished || ended)
    &&& later(earliest(targets), 1) == d.upper_ms
    &&& targets.len() >= d.limit
    &&& !d.incomplete
}

/// A search after an answer: the window ends where the answer did, with one millisecond of overlap as
/// long as that makes it smaller, and an empty answer ends the search.
pub open spec fn answered(
    d0: HistoryDiscovery,
    d1: HistoryDiscovery,
    targets: Seq<HistoryTargetV>,
    ended: bool,
    now: Clock,
) -> bool {
    d1 == (HistoryDiscovery {
        pending: None,
        attempts: 0,
        retry_at: now.mono_ms,
        finished: d0.finished || ended || targets.len() == 0,
        incomplete: d0.incomplete || window_full(d0, targets, ended),
        upper_ms: if targets.len() == 0 {
            d0.upper_ms
        } else if later(earliest(targets), 1) < d0.upper_ms {
            later(earliest(targets), 1)
        } else {
            earliest(targets)
        },
        ..d0
    })
}

/// One conversation of an answer: a new one gets a buffer and is queued to be filled, unless the user
/// closed it.
pub open spec fn adopted(
    d0: HistoryDiscovery,
    d1: HistoryDiscovery,
    s0: AppState,
    s1: AppState,
    conn: Seq<char>,
    name: Seq<char>,
) -> bool {
    if d0.seen@.contains(lower_seq(name)) {
        d1 == d0 && s1 == s0
    } else if s0.connections@[conn].chathistory.closed@.contains(lower_seq(name)) {
        &&& d1 == (HistoryDiscovery { seen: d1.seen, ..d0 })
        &&& d1.seen@ == d0.seen@.insert(lower_seq(name))
        &&& s1 == s0
    } else {
        &&& d1 == (HistoryDiscovery { seen: d1.seen, queue: d1.queue, ..d0 })
        &&& d1.seen@ == d0.seen@.insert(lower_seq(name))
        &&& texts(d1.queue@) == texts(d0.queue@).push(name)
        &&& if s0.buffers@.contains_key(buffer_id_seq(conn, name)) {
            s1 == s0
        } else {
            opened(
                s0,
                s1,
                conn,
                if channel_target(name) {
                    BufferType::Channel
                } else {
                    BufferType::Query
                },
                name,
            )
        }
    }
}

/// The conversations of an answer, one after the other.
pub open spec fn all_adopted(
    d0: HistoryDiscovery,
    d1: HistoryDiscovery,
    s0: AppState,
    s1: AppState,
    conn: Seq<char>,
    targets: Seq<HistoryTargetV>,
) -> bool
    decreases targets.len(),
{
    if targets.len() == 0 {
        d1 == d0 && s1 == s0
    } else {
        exists|dm: HistoryDiscovery, sm: AppState|
            {
                &&& all_adopted(d0, dm, s0, sm, conn, targets.drop_last())
                &&& #[trigger] adopted(dm, d1, sm, s1, conn, targets.last().name)
            }
    }
}

/// Takes up one conversation of an answer.
fn adopt(d: &mut HistoryDiscovery, state: &mut AppState, conn: &str, name: &str)
    requires
        old(state).connections@.contains_key(conn@),
    ensures
        adopted(*old(d), *final(d), *old(state), *final(state), conn@, name@),
        final(state).connections == old(state).connections,
{
    let key = lower(name);
    if d.seen.contains(key.as_str()) {
        return;
    }
    let _new = d.seen.insert(key);
    let closed = match state.connections.get(conn) {
        Some(c) => c.chathistory.was_closed(name),
        None => true,
    };
    if closed {
        return;
    }
    let buffer = make_buffer_id(conn, name);
    if !state.buffers.contains(buffer.as_str()) {
        let kind = if is_channel_target(name) {
            BufferType::Channel
        } else {
            BufferType::Query
        };
        open_buffer(state, conn, kind, name);
    }
    let ghost was = texts(d.queue@);
    d.queue.push(name.to_string());
    assert(texts(d.queue@) =~= was.push(name@));
}

/// Takes up the conversations of an answer.
fn adopt_all(d: &mut HistoryDiscovery, state: &mut AppState, conn: &str, targets: &Vec<HistoryTarget>)
    requires
        old(state).connections@.contains_key(conn@),
    ensures
        all_adopted(
            *old(d),
            *final(d),
            *old(state),
            *final(state),
            conn@,
            target_views(targets@),
        ),
        final(state).connections == old(state).connections,
{
    let ghost d0 = *d;
    let ghost s0 = *state;
    let ghost all = target_views(targets@);
    let mut i: usize = 0;
    assert(all.take(0) =~= Seq::<HistoryTargetV>::empty());
    while i < targets.len()
        invariant
            i <= targets@.len(),
            all == target_views(targets@),
            s0.connections@.contains_key(conn@),
            state.connections == s0.connections,
            all_adopted(d0, *d, s0, *state, conn@, all.take(i as int)),
        decreases targets@.len() - i,
    {
        let ghost dm = *d;
        let ghost sm = *state;
        adopt(d, state, conn, targets[i].name.as_str());
        proof {
            assert(all.take(i + 1).drop_last() =~= all.take(i as int));
            assert(all.take(i + 1).last() == targets@[i as int]@);
            assert(adopted(dm, *d, sm, *state, conn@, all.take(i + 1).last().name));
        }
        i = i + 1;
    }
    assert(all.take(all.len() as int) =~= all);
}

/// The first conversation from `i` on that was not seen before.
pub open spec fn unseen_from(seen: Set<Seq<char>>, targets: Seq<HistoryTargetV>, i: int) -> Option<Seq<char>>
    decreases targets.len() - i,
{
    if i >= targets.len() || i < 0 {
        None
    } else if !seen.contains(lower_seq(targets[i].name)) {
        Some(lower_seq(targets[i].name))
    } else {
        unseen_from(seen, targets, i + 1)
    }
}

/// The first conversation that was not seen before.
fn first_unseen(d: &HistoryDiscovery, targets: &Vec<HistoryTarget>) -> (r: Option<String>)
    ensures
        opt_text(r) == unseen_from(d.seen@, target_views(targets@), 0),
{
    let ghost all = target_views(targets@);
    let mut i: usize = 0;
    while i < targets.len()
        invariant
            i <= targets@.len(),
            all == target_views(targets@),
            unseen_from(d.seen@, all, 0) == unseen_from(d.seen@, all, i as int),
        decreases targets@.len() - i,
    {
        assert(all[i as int] == targets@[i as int]@);
        let key = lower(targets[i].name.as_str());
        if !d.seen.contains(key.as_str()) {
            return Some(key);
        }
        i = i + 1;
    }
    None
}

/// The answer to the question that is under way.
pub open spec fn expected_answer(d: HistoryDiscovery, b: BatchV) -> bool {
    d.pending matches Some(started) && started <= b.started_at && decoded(b, d.upper_ms) is Some
}

/// The answer to the question that is under way was taken up; any other changes nothing. Without its
/// connection an answer moves the window, and stops at the first conversation that is new.
pub open spec fn targets_received(
    d0: HistoryDiscovery,
    d1: HistoryDiscovery,
    s0: AppState,
    s1: AppState,
    conn: Seq<char>,
    b: BatchV,
    now: Clock,
    r: bool,
) -> bool {
    let targets = decoded(b, d0.upper_ms)->0;
    let ended = tagged(b.opener, "draft/chathistory-end"@);
    if !expected_answer(d0, b) {
        !r && d1 == d0 && s1 == s0
    } else if !s0.connections@.contains_key(conn) {
        &&& s1 == s0
        &&& exists|dm: HistoryDiscovery|
            {
                &&& #[trigger] answered(d0, dm, targets, ended, now)
                &&& match unseen_from(d0.seen@, targets, 0) {
                    None => r && d1 == dm,
                    Some(key) => {
                        &&& !r
                        &&& d1 == (HistoryDiscovery { seen: d1.seen, ..dm })
                        &&& d1.seen@ == d0.seen@.insert(key)
                    },
                }
            }
    } else {
        &&& r
        &&& exists|dm: HistoryDiscovery, sm: AppState|
            {
                &&& answered(d0, dm, targets, ended, now)
                &&& #[trigger] all_adopted(dm, d1, s0, sm, conn, targets)
                &&& if window_full(d0, targets, ended) {
                    server_told(sm, s1, conn, DISCOVERY_INCOMPLETE@, now.utc_ms)
                } else {
                    s1 == sm
                }
            }
    }
}

/// Takes up an answer: new conversations get a buffer and are queued, and the window moves on. Tells
/// whether a round follows.
pub fn receive_history_targets(
    d: &mut HistoryDiscovery,
    state: &mut AppState,
    conn: &str,
    batch: &BatchInfo,
    now: Clock,
) -> (r: bool)
    ensures
        targets_received(
            *old(d),
            *final(d),
            *old(state),
            *final(state),
            conn@,
            batch@,
            now,
            r,
        ),
{
    let ghost d0 = *d;
    let current = match d.pending {
        Some(started) => started <= batch.started_at,
        None => false,
    };
    if !current {
        return false;
    }
    let targets = match decode_targets(batch, d.upper_ms) {
        None => {
            return false;
        },
        Some(targets) => targets,
    };
    let ghost tv = target_views(targets@);
    assert(tv.len() == targets@.len());
    let ended = has_tag(&batch.opener, "draft/chathistory-end");
    d.pending = None;
    d.attempts = 0;
    d.retry_at = now.mono_ms;
    if ended {
        d.finished = true;
    }
    let mut report = false;
    if targets.len() > 0 {
        let oldest: i64 = earliest_of(&targets);
        let overlapping: i64 = add_span(oldest, 1);
        if !d.finished && overlapping == d.upper_ms && targets.len() as u64 >= d.limit && !d.incomplete {
            d.incomplete = true;
            report = true;
        }
        d.upper_ms = if overlapping < d.upper_ms {
            overlapping
        } else {
            oldest
        };
    } else {
        d.finished = true;
    }
    let ghost dm = *d;
    let ghost s0 = *state;
    assert(answered(d0, dm, tv, ended, now));
    assert(decoded(batch@, d0.upper_ms)->0 == tv);
    if !state.connections.contains(conn) {
        assert(answered(
            d0,
            dm,
            decoded(batch@, d0.upper_ms)->0,
            tagged(batch@.opener, "draft/chathistory-end"@),
            now,
        ));
        match first_unseen(d, &targets) {
            None => {
                return true;
            },
            Some(key) => {
                let _new = d.seen.insert(key);
                return false;
            },
        }
    }
    adopt_all(d, state, conn, &targets);
    proof {
        let all = decoded(batch@, d0.upper_ms)->0;
        assert(all == tv);
        assert(all_adopted(dm, *d, s0, *state, conn@, all));
        assert(report == window_full(d0, all, ended));
    }
    if report {
        tell_server_buffer(state, conn, DISCOVERY_INCOMPLETE, now.utc_ms);
    }
    true
}

/// The conversations of a list that are still being filled.
pub open spec fn still_active(h: ChatHistory, list: Seq<Seq<char>>) -> Seq<Seq<char>>
    decreases list.len(),
{
    if list.len() == 0 {
        Seq::empty()
    } else {
        let init = still_active(h, list.drop_last());
        if h.pending(list.last()) {
            init.push(list.last())
        } else {
            init
        }
    }
}

/// How often a conversation was tried.
pub open spec fn tries_of(attempts: Map<Seq<char>, u64>, target: Seq<char>) -> u64 {
    if attempts.contains_key(target) {
        attempts[target]
    } else {
        0
    }
}

/// A conversation is not being filled any more, without success, and has tries left.
pub open spec fn to_retry(h: ChatHistory, attempts: Map<Seq<char>, u64>, target: Seq<char>) -> bool {
    !h.pending(target) && !h.succeeded(target) && tries_of(attempts, target) < MAX_TRIES
}

/// The conversations of a list to try again.
pub open spec fn retried(h: ChatHistory, attempts: Map<Seq<char>, u64>, list: Seq<Seq<char>>) -> Seq<
    Seq<char>,
>
    decreases list.len(),
{
    if list.len() == 0 {
        Seq::empty()
    } else {
        let init = retried(h, attempts, list.drop_last());
        if to_retry(h, attempts, list.last()) {
            init.push(list.last())
        } else {
            init
        }
    }
}

/// What may be asked for again, after the conversations of a list were given up for now.
pub open spec fn ungapped(gapfilled: Set<Seq<char>>, list: Seq<Seq<char>>) -> Set<Seq<char>>
    decreases list.len(),
{
    if list.len() == 0 {
        gapfilled
    } else {
        ungapped(gapfilled, list.drop_last()).remove(lower_seq(list.last()))
    }
}

/// A search and its connection after what is done was cleared away.
pub open spec fn settled(
    d0: HistoryDiscovery,
    d1: HistoryDiscovery,
    h0: ChatHistory,
    h1: ChatHistory,
    now: u64,
) -> bool {
    let again = retried(h0, d0.hydration_attempts@, texts(d0.active@));
    &&& d1 == (HistoryDiscovery {
        pending: match d0.pending {
            Some(started) if now - started > ANSWER_MS => None,
            _ => d0.pending,
        },
        active: d1.active,
        queue: d1.queue,
        ..d0
    })
    &&& texts(d1.active@) == still_active(h0, texts(d0.active@))
    &&& texts(d1.queue@) == texts(d0.queue@) + again
    &&& h1 == (ChatHistory { gapfilled: h1.gapfilled, ..h0 })
    &&& h1.gapfilled@ == ungapped(h0.gapfilled@, again)
}

/// Clears away what is done.
fn settle(d: &mut HistoryDiscovery, h: &mut ChatHistory, now: u64)
    ensures
        settled(*old(d), *final(d), *old(h), *final(h), now),
{
    let ghost d0 = *d;
    let ghost h0 = *h;
    let expired = match d.pending {
        Some(started) => now > started && now - started > ANSWER_MS,
        None => false,
    };
    if expired {
        d.pending = None;
    }
    let ghost all = texts(d.active@);
    let mut active: Vec<String> = Vec::new();
    let mut i: usize = 0;
    proof {
        assert(all.take(0) =~= Seq::<Seq<char>>::empty());
        assert(texts(active@) =~= Seq::<Seq<char>>::empty());
        assert(texts(d.queue@) =~= texts(d0.queue@) + retried(
            h0,
            d0.hydration_attempts@,
            all.take(0),
        ));
    }
    while i < d.active.len()
        invariant
            i <= d.active@.len(),
            all == texts(d.active@),
            all == texts(d0.active@),
            *d == (HistoryDiscovery { queue: d.queue, pending: d.pending, ..d0 }),
            d.pending == (if expired {
                None
            } else {
                d0.pending
            }),
            texts(active@) == still_active(h0, all.take(i as int)),
            texts(d.queue@) == texts(d0.queue@) + retried(
                h0,
                d0.hydration_attempts@,
                all.take(i as int),
            ),
            *h == (ChatHistory { gapfilled: h.gapfilled, ..h0 }),
            h.gapfilled@ == ungapped(
                h0.gapfilled@,
                retried(h0, d0.hydration_attempts@, all.take(i as int)),
            ),
        decreases d.active@.len() - i,
    {
        let target = d.active[i].clone();
        let ghost t = target@;
        proof {
            assert(all.take(i + 1).drop_last() =~= all.take(i as int));
            assert(all.take(i + 1).last() == t);
        }
        let ghost again = retried(h0, d0.hydration_attempts@, all.take(i as int));
        if h.any_in_flight(target.as_str()) {
            let ghost was = texts(active@);
            active.push(target);
            assert(texts(active@) =~= was.push(t));
        } else {
            let tries: u64 = match d.hydration_attempts.get(target.as_str()) {
                Some(n) => *n,
                None => 0,
            };
            if !h.last_request_succeeded(target.as_str()) && tries < MAX_TRIES {
                let ghost was = texts(d.queue@);
                h.clear_connect_gapfilled(target.as_str());
                d.queue.push(target);
                proof {
                    assert(texts(d.queue@) =~= was.push(t));
                    assert(texts(d.queue@) =~= texts(d0.queue@) + again.push(t));
                    assert(again.push(t).drop_last() =~= again);
                }
            }
        }
        i = i + 1;
    }
    assert(all.take(all.len() as int) =~= all);
    d.active = active;
}

/// How many requests are under way on the connections whose history the server keeps.
pub open spec fn requests_under_way(state: AppState, ids: Seq<Seq<char>>) -> nat
    decreases ids.len(),
{
    if ids.len() == 0 {
        0
    } else {
        let c = state.connections@[ids.last()];
        requests_under_way(state, ids.drop_last()) + (if c.owns_history() {
            c.chathistory.in_flight.keys().len()
        } else {
            0
        })
    }
}

/// How many requests are under way in all; a count past the largest value counts as that.
fn count_requests(state: &AppState) -> (r: usize)
    ensures
        r == requests_under_way(*state, state.connections.keys()) || (r == usize::MAX
            && requests_under_way(*state, state.connections.keys()) > usize::MAX),
{
    let ghost keys = state.connections.keys();
    let n: usize = state.connections.len();
    let mut r: usize = 0;
    let mut over = false;
    let mut i: usize = 0;
    assert(keys.take(0) =~= Seq::<Seq<char>>::empty());
    while i < n
        invariant
            keys == state.connections.keys(),
            n == keys.len(),
            i <= n,
            if over {
                r == usize::MAX && requests_under_way(*state, keys.take(i as int)) > usize::MAX
            } else {
                r == requests_under_way(*state, keys.take(i as int))
            },
        decreases n - i,
    {
        let c = state.connections.value_at(i);
        assert(keys.take(i + 1).drop_last() =~= keys.take(i as int));
        assert(keys.take(i + 1).last() == keys[i as int]);
        if c.server_owns_history() {
            let k: usize = c.chathistory.pending_count();
            if !over {
                if r > usize::MAX - k {
                    over = true;
                    r = usize::MAX;
                } else {
                    r = r + k;
                }
            }
        }
        i = i + 1;
    }
    assert(keys.take(n as int) =~= keys);
    r
}

/// How many more conversations may be filled now.
pub open spec fn room_for(own: nat, total: nat) -> nat {
    let a = if own >= PER_CONNECTION {
        0
    } else {
        (PER_CONNECTION - own) as nat
    };
    let b = if total >= IN_ALL {
        0
    } else {
        (IN_ALL - total) as nat
    };
    if a < b {
        a
    } else {
        b
    }
}

/// The conversations that come next.
pub open spec fn next_up(queue: Seq<Seq<char>>, room: nat) -> Seq<Seq<char>> {
    if queue.len() < room {
        queue
    } else {
        queue.take(room as int)
    }
}

/// One connection's part of a round.
pub open spec fn discovery_ticked(
    m0: Map<Seq<char>, HistoryDiscovery>,
    m1: Map<Seq<char>, HistoryDiscovery>,
    s0: AppState,
    s1: AppState,
    h0: Map<Seq<char>, IrcHandle>,
    h1: Map<Seq<char>, IrcHandle>,
    conn: Seq<char>,
    now: Clock,
    next: Seq<Seq<char>>,
) -> bool {
    if !m0.contains_key(conn) {
        m1 == m0 && s1 == s0 && h1 == h0 && next.len() == 0
    } else if !s0.connections@.contains_key(conn) {
        m1 == m0.remove(conn) && s1 == s0 && h1 == h0 && next.len() == 0
    } else if s0.connections@[conn].status != ConnectionStatus::Connected {
        m1 == m0 && s1 == s0 && h1 == h0 && next.len() == 0
    } else {
        exists|d: HistoryDiscovery, e: HistoryDiscovery, s: AppState|
            {
                let c = s0.connections@[conn];
                let room = room_for(
                    c.chathistory.in_flight.keys().len(),
                    requests_under_way(s0, s0.connections.keys()),
                );
                &&& s == (AppState { connections: s.connections, ..s0 })
                &&& s.connections@ == s0.connections@.insert(conn, s.connections@[conn])
                &&& s.connections@[conn] == (Connection {
                    chathistory: s.connections@[conn].chathistory,
                    ..c
                })
                &&& #[trigger] settled(
                    m0[conn],
                    d,
                    s0.connections@[conn].chathistory,
                    s.connections@[conn].chathistory,
                    now.mono_ms,
                )
                &&& next == next_up(texts(d.queue@), room)
                &&& e == (HistoryDiscovery { queue: e.queue, ..d })
                &&& texts(e.queue@) == texts(d.queue@).skip(next.len() as int)
                &&& m1 == m0.insert(conn, m1[conn])
                &&& #[trigger] asked(e, m1[conn], s, s1, h0, h1, conn, now)
            }
    }
}

/// Runs one connection's part of a round: what is done is cleared away, the next question is sent, and
/// the conversations that come next are handed back, each to be decided on with `send_queued_hydration`.
pub fn tick_history_discovery(
    map: &mut StrMap<HistoryDiscovery>,
    state: &mut AppState,
    handles: &mut StrMap<IrcHandle>,
    conn: &str,
    now: Clock,
) -> (r: Vec<String>)
    ensures
        final(handles).keys() == old(handles).keys(),
        discovery_ticked(
            old(map)@,
            final(map)@,
            *old(state),
            *final(state),
            old(handles)@,
            final(handles)@,
            conn@,
            now,
            texts(r@),
        ),
{
    let ghost m0 = map@;
    let ghost s0 = *state;
    let ghost h0 = handles@;
    let mut r: Vec<String> = Vec::new();
    assert(texts(r@) =~= Seq::<Seq<char>>::empty());
    if !map.contains(conn) {
        return r;
    }
    let connected = match state.connections.get(conn) {
        None => {
            let _gone = map.remove(conn);
            return r;
        },
        Some(c) => c.status == ConnectionStatus::Connected,
    };
    if !connected {
        return r;
    }
    let total: usize = count_requests(state);
    let mut own: usize = 0;
    match map.get_mut(conn) {
        None => {},
        Some(d) => {
            match state.connections.get_mut(conn) {
                None => {},
                Some(c) => {
                    own = c.chathistory.pending_count();
                    settle(d, &mut c.chathistory, now.mono_ms);
                },
            }
            let ghost sd = *d;
            let ghost s = *state;
            assert(settled(
                m0[conn@],
                sd,
                s0.connections@[conn@].chathistory,
                s.connections@[conn@].chathistory,
                now.mono_ms,
            ));
            let a: usize = if own >= PER_CONNECTION {
                0
            } else {
                PER_CONNECTION - own
            };
            let b: usize = if total >= IN_ALL {
                0
            } else {
                IN_ALL - total
            };
            let room: usize = if a < b {
                a
            } else {
                b
            };
            take_next(&mut d.queue, &mut r, room);
            let ghost e = *d;
            send_history_targets(d, state, handles, conn, now);
            assert(asked(e, *d, s, *state, h0, handles@, conn@, now));
        },
    }
    assert(map@ =~= m0.insert(conn@, map@[conn@]));
    r
}

/// Takes the conversations that come next from the front of a queue.
fn take_next(queue: &mut Vec<String>, r: &mut Vec<String>, room: usize)
    requires
        old(r)@.len() == 0,
    ensures
        texts(final(r)@) == next_up(texts(old(queue)@), room as nat),
        texts(final(queue)@) == texts(old(queue)@).skip(texts(final(r)@).len() as int),
{
    let ghost q0 = texts(queue@);
    assert(texts(r@) =~= q0.take(0));
    assert(texts(queue@) =~= q0.skip(0));
    while r.len() < room && queue.len() > 0
        invariant
            r@.len() <= room,
            r@.len() <= q0.len(),
            texts(r@) == q0.take(r@.len() as int),
            texts(queue@) == q0.skip(r@.len() as int),
        decreases queue@.len(),
    {
        let ghost were = texts(queue@);
        let ghost was = texts(r@);
        let ghost n: int = r@.len() as int;
        assert(were.len() == queue@.len());
        let next = queue.remove(0);
        proof {
            assert(next@ == were[0]);
            assert(texts(queue@) =~= were.skip(1));
            assert(were.skip(1) =~= q0.skip(n + 1));
        }
        let ghost nv = next@;
        r.push(next);
        assert(texts(r@) =~= was.push(nv));
        assert(texts(r@) =~= q0.take(n + 1));
    }
    proof {
        assert(texts(queue@).len() == queue@.len());
        assert(texts(r@).len() == r@.len());
        if queue@.len() == 0 {
            assert(q0.take(r@.len() as int) =~= q0);
            if r@.len() == room {
                assert(q0.take(room as int) =~= q0);
            }
        }
    }
}

/// What becomes of a conversation whose turn it is.
pub open spec fn hydration(
    d0: HistoryDiscovery,
    d1: HistoryDiscovery,
    state: AppState,
    conn: Seq<char>,
    target: Seq<char>,
    backlog_lines: usize,
    send: bool,
) -> bool {
    if !state.buffers@.contains_key(buffer_id_seq(conn, target)) || !state.connections@.contains_key(conn)
        || backlog_lines == 0 || state.connections@[conn].chathistory.gapfilled@.contains(
        lower_seq(target),
    ) {
        !send && d1 == d0
    } else if state.connections@[conn].chathistory.pending(target) {
        &&& !send
        &&& d1 == (HistoryDiscovery { queue: d1.queue, ..d0 })
        &&& texts(d1.queue@) == texts(d0.queue@).push(target)
    } else {
        let tries = tries_of(d0.hydration_attempts@, target);
        &&& send == (tries < MAX_TRIES)
        &&& d1 == (HistoryDiscovery { hydration_attempts: d1.hydration_attempts, ..d0 })
        &&& d1.hydration_attempts@ == d0.hydration_attempts@.insert(
            target,
            if send {
                (tries + 1) as u64
            } else {
                tries
            },
        )
    }
}

/// Decides whether a conversation whose turn it is is asked for now; a try is counted then. What became
/// of the request is told with `hydration_sent`.
pub fn send_queued_hydration(
    d: &mut HistoryDiscovery,
    state: &AppState,
    conn: &str,
    target: &str,
    backlog_lines: usize,
) -> (r: bool)
    ensures
        hydration(*old(d), *final(d), *state, conn@, target@, backlog_lines, r),
{
    let buffer = make_buffer_id(conn, target);
    if !state.buffers.contains(buffer.as_str()) {
        return false;
    }
    let c = match state.connections.get(conn) {
        None => {
            return false;
        },
        Some(c) => c,
    };
    if backlog_lines == 0 || c.chathistory.is_connect_gapfilled(target) {
        return false;
    }
    if c.chathistory.any_in_flight(target) {
        let ghost was = texts(d.queue@);
        d.queue.push(target.to_string());
        assert(texts(d.queue@) =~= was.push(target@));
        return false;
    }
    let tries: u64 = match d.hydration_attempts.get(target) {
        Some(n) => *n,
        None => 0,
    };
    if tries >= MAX_TRIES {
        d.hydration_attempts.insert(target.to_string(), tries);
        return false;
    }
    d.hydration_attempts.insert(target.to_string(), tries + 1);
    true
}

/// Notes whether the request for a conversation could be sent; one that could not be waits again.
pub fn hydration_sent(d: &mut HistoryDiscovery, target: &str, sent: bool)
    ensures
        *final(d) == (HistoryDiscovery {
            queue: final(d).queue,
            active: final(d).active,
            ..*old(d)
        }),
        texts(final(d).queue@) == (if sent {
            texts(old(d).queue@)
        } else {
            texts(old(d).queue@).push(target@)
        }),
        texts(final(d).active@) == (if sent && !texts(old(d).active@).contains(target@) {
            texts(old(d).active@).push(target@)
        } else {
            texts(old(d).active@)
        }),
{
    if !sent {
        let ghost was = texts(d.queue@);
        d.queue.push(target.to_string());
        assert(texts(d.queue@) =~= was.push(target@));
    } else if !crate::text::has_text(&d.active, target) {
        let ghost was = texts(d.active@);
        d.active.push(target.to_string());
        assert(texts(d.active@) =~= was.push(target@));
    }
}

/// Every answer makes the window smaller or ends the search, so that the search comes to an end.
pub proof fn window_shrinks(
    d0: HistoryDiscovery,
    d1: HistoryDiscovery,
    b: BatchV,
    targets: Seq<HistoryTargetV>,
    ended: bool,
    now: Clock,
)
    requires
        decoded(b, d0.upper_ms) == Some(targets),
        answered(d0, d1, targets, ended, now),
    ensures
        d1.upper_ms < d0.upper_ms || d1.finished,
{
    if targets.len() > 0 {
        lemma_earliest_in_window(b, d0.upper_ms, targets);
    }
}

/// The earliest time of an answer lies inside the window.
proof fn lemma_earliest_in_window(b: BatchV, upper_ms: i64, targets: Seq<HistoryTargetV>)
    requires
        decoded(b, upper_ms) == Some(targets),
        targets.len() > 0,
    ensures
        0 < earliest(targets) < upper_ms,
{
    assert forall|i: int| 0 <= i < targets.len() implies 0 < (#[trigger] targets[i]).at_ms < upper_ms by {
        assert(row_target(b.messages[i].message.command, upper_ms) is Some);
    }
    lemma_earliest_is_one(targets);
    let i = choose|i: int| 0 <= i < targets.len() && (#[trigger] targets[i]).at_ms == earliest(targets);
    assert(targets[i].at_ms < upper_ms);
}

/// The earliest time is that of a conversation.
proof fn lemma_earliest_is_one(targets: Seq<HistoryTargetV>)
    requires
        targets.len() > 0,
    ensures
        exists|i: int| 0 <= i < targets.len() && (#[trigger] targets[i]).at_ms == earliest(targets),
    decreases targets.len(),
{
    if targets.len() > 1 {
        let rest = targets.drop_last();
        lemma_earliest_is_one(rest);
        let i = choose|i: int| 0 <= i < rest.len() && (#[trigger] rest[i]).at_ms == earliest(rest);
        assert(targets[i].at_ms == earliest(rest));
        assert(targets[targets.len() - 1] == targets.last());
    } else {
        assert(targets[0].at_ms == earliest(targets));
    }
}

/// A conversation is asked for at most so often.
pub proof fn hydration_is_bounded(
    d0: HistoryDiscovery,
    d1: HistoryDiscovery,
    state: AppState,
    conn: Seq<char>,
    target: Seq<char>,
    backlog_lines: usize,
    send: bool,
)
    requires
        hydration(d0, d1, state, conn, target, backlog_lines, send),
        tries_of(d0.hydration_attempts@, target) <= MAX_TRIES,
    ensures
        tries_of(d1.hydration_attempts@, target) <= MAX_TRIES,
        send ==> tries_of(d1.hydration_attempts@, target) == tries_of(d0.hydration_attempts@, target) + 1,
{
}

/// What becomes of the conversations of an answer.
proof fn lemma_all_adopted(
    d0: HistoryDiscovery,
    d1: HistoryDiscovery,
    s0: AppState,
    s1: AppState,
    conn: Seq<char>,
    targets: Seq<HistoryTargetV>,
)
    requires
        all_adopted(d0, d1, s0, s1, conn, targets),
        s0.connections@.contains_key(conn),
    ensures
        s1.connections == s0.connections,
        texts(d0.queue@).is_prefix_of(texts(d1.queue@)),
        forall|k: Seq<char>| #[trigger] s0.buffers@.contains_key(k) ==> s1.buffers@.contains_key(k),
        forall|key: Seq<char>| #[trigger]
            d1.seen@.contains(key) && !d0.seen@.contains(key)
                && !s0.connections@[conn].chathistory.closed@.contains(key) ==> filled(d1, s1, conn, key),
        forall|key: Seq<char>| #[trigger] d0.seen@.contains(key) ==> d1.seen@.contains(key),
        forall|i: int| 0 <= i < targets.len() ==> d1.seen@.contains(lower_seq((#[trigger] targets[i]).name)),
    decreases targets.len(),
{
    if targets.len() == 0 {
        assert(texts(d0.queue@) =~= texts(d1.queue@).subrange(0, texts(d0.queue@).len() as int));
    } else {
        let rest = targets.drop_last();
        let name = targets.last().name;
        let (dm, sm) = choose|dm: HistoryDiscovery, sm: AppState|
            {
                &&& all_adopted(d0, dm, s0, sm, conn, rest)
                &&& #[trigger] adopted(dm, d1, sm, s1, conn, name)
            };
        lemma_all_adopted(d0, dm, s0, sm, conn, rest);
        let q0 = texts(d0.queue@);
        let qm = texts(dm.queue@);
        let q1 = texts(d1.queue@);
        assert(qm =~= q1.subrange(0, qm.len() as int));
        assert(q0 =~= q1.subrange(0, q0.len() as int)) by {
            assert(q0 =~= qm.subrange(0, q0.len() as int));
        }
        assert forall|key: Seq<char>| #[trigger]
            d1.seen@.contains(key) && !d0.seen@.contains(key)
                && !s0.connections@[conn].chathistory.closed@.contains(key) implies filled(d1, s1, conn, key) by {
            if dm.seen@.contains(key) {
                assert(filled(dm, sm, conn, key));
                let n = choose|n: Seq<char>| #[trigger] filled_as(dm, sm, conn, key, n);
                let w = qm.index_of(n);
                assert(q1[w] == qm[w]);
                assert(filled_as(d1, s1, conn, key, n));
            } else {
                assert(key == lower_seq(name));
                assert(q1[q1.len() - 1] == name);
                assert(filled_as(d1, s1, conn, key, name));
            }
        }
        assert forall|i: int| 0 <= i < targets.len() implies d1.seen@.contains(
            lower_seq((#[trigger] targets[i]).name),
        ) by {
            if i < rest.len() {
                assert(rest[i] == targets[i]);
            }
        }
    }
}

/// A conversation has a buffer and waits to be filled, under one spelling of its name.
pub open spec fn filled_as(
    d: HistoryDiscovery,
    state: AppState,
    conn: Seq<char>,
    key: Seq<char>,
    name: Seq<char>,
) -> bool {
    &&& lower_seq(name) == key
    &&& state.buffers@.contains_key(buffer_id_seq(conn, name))
    &&& texts(d.queue@).contains(name)
}

/// A conversation has a buffer and waits to be filled.
pub open spec fn filled(d: HistoryDiscovery, state: AppState, conn: Seq<char>, key: Seq<char>) -> bool {
    exists|name: Seq<char>| #[trigger] filled_as(d, state, conn, key, name)
}

/// Every conversation that a bouncer names is found: unless it was found before or the user closed it, it has
/// a buffer after the answer and waits to be filled. No buffer is closed, and what waited still waits.
pub proof fn named_conversations_are_found(
    d0: HistoryDiscovery,
    d1: HistoryDiscovery,
    s0: AppState,
    s1: AppState,
    conn: Seq<char>,
    b: BatchV,
    now: Clock,
    i: int,
)
    requires
        targets_received(d0, d1, s0, s1, conn, b, now, true),
        s0.connections@.contains_key(conn),
        decoded(b, d0.upper_ms) is Some,
        0 <= i < decoded(b, d0.upper_ms)->0.len(),
    ensures
        ({
            let key = lower_seq((decoded(b, d0.upper_ms)->0)[i].name);
            &&& d1.seen@.contains(key)
            &&& !d0.seen@.contains(key) && !s0.connections@[conn].chathistory.closed@.contains(key) ==> filled(
                d1,
                s1,
                conn,
                key,
            )
        }),
        texts(d0.queue@).is_prefix_of(texts(d1.queue@)),
        d1.pending is None,
{
    let targets = decoded(b, d0.upper_ms)->0;
    let ended = tagged(b.opener, "draft/chathistory-end"@);
    let (dm, sm) = choose|dm: HistoryDiscovery, sm: AppState|
        {
            &&& answered(d0, dm, targets, ended, now)
            &&& #[trigger] all_adopted(dm, d1, s0, sm, conn, targets)
            &&& if window_full(d0, targets, ended) {
                server_told(sm, s1, conn, DISCOVERY_INCOMPLETE@, now.utc_ms)
            } else {
                s1 == sm
            }
        };
    lemma_all_adopted(dm, d1, s0, sm, conn, targets);
    lemma_adopted_keeps(dm, d1, s0, sm, conn, targets);
    let key = lower_seq(targets[i].name);
    if !d0.seen@.contains(key) && !s0.connections@[conn].chathistory.closed@.contains(key) {
        assert(filled(d1, sm, conn, key));
        let n = choose|n: Seq<char>| #[trigger] filled_as(d1, sm, conn, key, n);
        assert(filled_as(d1, s1, conn, key, n));
    }
}

/// Taking up conversations leaves the question alone.
proof fn lemma_adopted_keeps(
    d0: HistoryDiscovery,
    d1: HistoryDiscovery,
    s0: AppState,
    s1: AppState,
    conn: Seq<char>,
    targets: Seq<HistoryTargetV>,
)
    requires
        all_adopted(d0, d1, s0, s1, conn, targets),
    ensures
        d1.pending == d0.pending,
        d1.finished == d0.finished,
        d1.upper_ms == d0.upper_ms,
    decreases targets.len(),
{
    if targets.len() > 0 {
        let (dm, sm) = choose|dm: HistoryDiscovery, sm: AppState|
            {
                &&& all_adopted(d0, dm, s0, sm, conn, targets.drop_last())
                &&& #[trigger] adopted(dm, d1, sm, s1, conn, targets.last().name)
            };
        lemma_adopted_keeps(d0, dm, s0, sm, conn, targets.drop_last());
    }
}

/// A conversation whose request failed is tried again.
proof fn lemma_retried(h: ChatHistory, attempts: Map<Seq<char>, u64>, list: Seq<Seq<char>>, target: Seq<char>)
    requires
        list.contains(target),
        to_retry(h, attempts, target),
    ensures
        retried(h, attempts, list).contains(target),
    decreases list.len(),
{
    let rest = list.drop_last();
    let k = list.index_of(target);
    let all = retried(h, attempts, list);
    if k < rest.len() {
        assert(rest[k] == target);
        lemma_retried(h, attempts, rest, target);
        let init = retried(h, attempts, rest);
        assert(all[init.index_of(target)] == target);
    } else {
        assert(all[all.len() - 1] == target);
    }
}

/// Conversations get their turn in the order in which they were queued. A round hands out those in front, as
/// many as there is room for beside the requests under way (two on a connection, eight in all), and at least
/// one where nothing is under way; the others stay in their order. One whose request ended without success is
/// handed out or waits again, as long as it was tried fewer than three times.
pub proof fn conversations_get_their_turn(
    m0: Map<Seq<char>, HistoryDiscovery>,
    m1: Map<Seq<char>, HistoryDiscovery>,
    s0: AppState,
    s1: AppState,
    h0: Map<Seq<char>, IrcHandle>,
    h1: Map<Seq<char>, IrcHandle>,
    conn: Seq<char>,
    now: Clock,
    next: Seq<Seq<char>>,
    target: Seq<char>,
)
    requires
        discovery_ticked(m0, m1, s0, s1, h0, h1, conn, now, next),
        m0.contains_key(conn),
        s0.connections@.contains_key(conn),
        s0.connections@[conn].status == ConnectionStatus::Connected,
    ensures
        ({
            let own = s0.connections@[conn].chathistory.in_flight.keys().len();
            let total = requests_under_way(s0, s0.connections.keys());
            let waited = texts(m0[conn].queue@);
            &&& m1.contains_key(conn)
            &&& waited.is_prefix_of(next + texts(m1[conn].queue@))
            &&& next.len() > 0 ==> next.len() + own <= PER_CONNECTION && next.len() + total <= IN_ALL
            &&& own == 0 && total == 0 && waited.len() > 0 ==> next.len() > 0
            &&& own < PER_CONNECTION && total < IN_ALL && waited.len() > 0 ==> next.len() > 0 && next[0] == waited[0]
            &&& texts(m0[conn].active@).contains(target) && !s0.connections@[conn].chathistory.pending(target)
                && !s0.connections@[conn].chathistory.succeeded(target) && tries_of(
                m0[conn].hydration_attempts@,
                target,
            ) < 3 ==> (next + texts(m1[conn].queue@)).contains(target)
        }),
{
    let c = s0.connections@[conn];
    let (d, e, s) = choose|d: HistoryDiscovery, e: HistoryDiscovery, s: AppState|
        {
            let room = room_for(
                c.chathistory.in_flight.keys().len(),
                requests_under_way(s0, s0.connections.keys()),
            );
            &&& #[trigger] settled(
                m0[conn],
                d,
                s0.connections@[conn].chathistory,
                s.connections@[conn].chathistory,
                now.mono_ms,
            )
            &&& next == next_up(texts(d.queue@), room)
            &&& e == (HistoryDiscovery { queue: e.queue, ..d })
            &&& texts(e.queue@) == texts(d.queue@).skip(next.len() as int)
            &&& m1 == m0.insert(conn, m1[conn])
            &&& #[trigger] asked(e, m1[conn], s, s1, h0, h1, conn, now)
        };
    let waited = texts(m0[conn].queue@);
    let all = next + texts(m1[conn].queue@);
    let again = retried(c.chathistory, m0[conn].hydration_attempts@, texts(m0[conn].active@));
    assert(all =~= texts(d.queue@));
    assert(waited =~= all.subrange(0, waited.len() as int));
    if texts(m0[conn].active@).contains(target) && to_retry(
        c.chathistory,
        m0[conn].hydration_attempts@,
        target,
    ) {
        lemma_retried(c.chathistory, m0[conn].hydration_attempts@, texts(m0[conn].active@), target);
        let k = again.index_of(target);
        assert(all[waited.len() + k] == target);
    }
}

/// The earliest of some conversations is one of them, and none is before it.
pub proof fn none_is_before_the_earliest(targets: Seq<HistoryTargetV>, i: int)
    requires
        0 <= i < targets.len(),
    ensures
        earliest(targets) <= targets[i].at_ms,
        exists|k: int| 0 <= k < targets.len() && (#[trigger] targets[k]).at_ms == earliest(targets),
    decreases targets.len(),
{
    if targets.len() > 1 {
        let rest = targets.drop_last();
        none_is_before_the_earliest(
            rest,
            if i < rest.len() {
                i
            } else {
                0
            },
        );
        let k = choose|k: int| 0 <= k < rest.len() && (#[trigger] rest[k]).at_ms == earliest(rest);
        assert(targets[k] == rest[k]);
        assert(targets[targets.len() - 1] == targets.last());
    } else {
        assert(targets[0].at_ms == earliest(targets));
    }
}

/// What is still waited for stays active, in its order, and nothing else does.
pub proof fn answered_requests_are_done(h: ChatHistory, list: Seq<Seq<char>>)
    ensures
        still_active(h, list) == list.filter(|t: Seq<char>| h.pending(t)),
    decreases list.len(),
{
    reveal(Seq::filter);
    if list.len() > 0 {
        answered_requests_are_done(h, list.drop_last());
    } else {
        assert(still_active(h, list) =~= list.filter(|t: Seq<char>| h.pending(t)));
    }
}

/// The conversation that is found anew is the first that was not seen, and there is none only where all were.
pub proof fn the_first_unseen_is_found(seen: Set<Seq<char>>, targets: Seq<HistoryTargetV>, i: int)
    requires
        0 <= i <= targets.len(),
    ensures
        match unseen_from(seen, targets, i) {
            Some(name) => !seen.contains(name) && exists|k: int|
                i <= k < targets.len() && lower_seq((#[trigger] targets[k]).name) == name && forall|j: int|
                    i <= j < k ==> seen.contains(lower_seq((#[trigger] targets[j]).name)),
            None => forall|j: int|
                i <= j < targets.len() ==> seen.contains(lower_seq((#[trigger] targets[j]).name)),
        },
    decreases targets.len() - i,
{
    if i < targets.len() {
        if seen.contains(lower_seq(targets[i].name)) {
            the_first_unseen_is_found(seen, targets, i + 1);
        }
    }
}

} // verus!
