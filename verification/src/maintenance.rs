//! What is done from time to time.
use vstd::prelude::*;

use crate::app::{handle_took, lemma_took_one, Clock, IrcHandle};
use crate::batch::{BatchTracker, BatchV, IrcMessageV, BATCH_MS};
use crate::chathistory::ChatHistory;
use crate::collections::StrMap;
use crate::completed::{
    all_batches, all_dispatched, all_folded, dispatch_expired_batch_set, expired_views, orders, Expired, ExpiredV,
    Outcome,
};
use crate::irc::{add_event_to_buffer, event_added};
use crate::irc_events::ponged;
use crate::mentions::{keep_recent, recent_rows, MentionRow, MENTIONS_BUFFER_ID, MENTIONS_MAX};
use crate::server_history::{slot, slot_of};
use crate::server_search::Searches;
use crate::state::{
    appended_at, buffer_id_seq, event_v, id_after, make_buffer_id, AppState, Buffer, BufferType, Connection,
    ConnectionStatus, Message, MessageType, MessageV,
};
use crate::text::{concat3, decimal, decimal_seq, opt_text, texts};
use crate::times::{calendar_millis, millis_of_seconds};
use crate::wire::{command1, untagged};

verus! {

broadcast use vstd::string::group_string_axioms;

/// The time between two purges, in milliseconds.
pub const PURGE_MS: u64 = 3_600_000;

/// How long mentions are kept, in seconds.
pub const MENTION_SECS: i64 = 604_800;

/// How long a server may leave a ping unanswered, in milliseconds.
pub const PING_TIMEOUT_MS: u64 = 300_000;

/// The time between two pings, in milliseconds.
pub const PING_MS: u64 = 30_000;

/// A line that reports an event under a theme key, without parameters.
pub open spec fn keyed_v(id: u64, at_ms: i64, text: Seq<char>, key: Seq<char>) -> MessageV {
    MessageV { event_key: Some(key), ..event_v(id, at_ms, text, None) }
}

/// A split was reported in a buffer.
pub open spec fn split_reported(
    before: AppState,
    after: AppState,
    buffer: Seq<char>,
    text: Seq<char>,
    now_ms: i64,
) -> bool {
    &&& after == (AppState {
        buffers: after.buffers,
        message_counter: id_after(before.message_counter),
        ..before
    })
    &&& appended_at(
        before.buffers,
        after.buffers,
        buffer,
        seq![keyed_v(id_after(before.message_counter), now_ms, text, "netsplit"@)],
    )
}

/// A split was reported in buffers, one after the other.
pub open spec fn split_reported_in(
    before: AppState,
    after: AppState,
    buffers: Seq<Seq<char>>,
    text: Seq<char>,
    now_ms: i64,
) -> bool
    decreases buffers.len(),
{
    if buffers.len() == 0 {
        after == before
    } else {
        exists|middle: AppState|
            split_reported_in(before, middle, buffers.drop_last(), text, now_ms) && #[trigger] split_reported(
                middle,
                after,
                buffers.last(),
                text,
                now_ms,
            )
    }
}

/// What is said of a split, and where.
#[derive(Debug)]
pub struct SplitMessage {
    pub text: String,
    pub buffer_ids: Vec<String>,
}

/// Splits were reported, one after the other.
pub open spec fn splits_reported(
    before: AppState,
    after: AppState,
    messages: Seq<SplitMessage>,
    now_ms: i64,
) -> bool
    decreases messages.len(),
{
    if messages.len() == 0 {
        after == before
    } else {
        exists|middle: AppState|
            splits_reported(before, middle, messages.drop_last(), now_ms) && #[trigger] split_reported_in(
                middle,
                after,
                texts(messages.last().buffer_ids@),
                messages.last().text@,
                now_ms,
            )
    }
}

/// Reports a split in buffers.
fn report_split(state: &mut AppState, buffers: &Vec<String>, text: &str, now_ms: i64)
    ensures
        split_reported_in(*old(state), *final(state), texts(buffers@), text@, now_ms),
{
    let ghost before = *state;
    let ghost all = texts(buffers@);
    let mut i: usize = 0;
    assert(all.take(0) =~= Seq::<Seq<char>>::empty());
    while i < buffers.len()
        invariant
            i <= buffers@.len(),
            all == texts(buffers@),
            split_reported_in(before, *state, all.take(i as int), text@, now_ms),
        decreases buffers@.len() - i,
    {
        let ghost middle = *state;
        let id: u64 = state.next_message_id();
        let message = Message {
            id,
            at_ms: now_ms,
            message_type: MessageType::Event,
            nick: None,
            nick_mode: None,
            text: text.to_string(),
            highlight: false,
            event_key: Some("netsplit".to_string()),
            event_params: Vec::new(),
            msgid: None,
        };
        assert(message@ =~= keyed_v(id, now_ms, text@, "netsplit"@));
        state.add_message(buffers[i].as_str(), message);
        proof {
            assert(all.take(i + 1).drop_last() =~= all.take(i as int));
            assert(all.take(i + 1).last() == buffers@[i as int]@);
            assert(split_reported(middle, *state, all.take(i + 1).last(), text@, now_ms));
        }
        i = i + 1;
    }
    assert(all.take(all.len() as int) =~= all);
}

/// Reports what is to be said of splits.
pub fn handle_netsplit_tick(state: &mut AppState, messages: &Vec<SplitMessage>, now_ms: i64)
    ensures
        splits_reported(*old(state), *final(state), messages@, now_ms),
{
    let ghost before = *state;
    let mut i: usize = 0;
    assert(messages@.take(0) =~= Seq::<SplitMessage>::empty());
    while i < messages.len()
        invariant
            i <= messages@.len(),
            splits_reported(before, *state, messages@.take(i as int), now_ms),
        decreases messages@.len() - i,
    {
        let ghost middle = *state;
        report_split(state, &messages[i].buffer_ids, messages[i].text.as_str(), now_ms);
        proof {
            assert(messages@.take(i + 1).drop_last() =~= messages@.take(i as int));
            let last = messages@.take(i + 1).last();
            assert(last == messages@[i as int]);
            assert(split_reported_in(middle, *state, texts(last.buffer_ids@), last.text@, now_ms));
        }
        i = i + 1;
    }
    assert(messages@.take(messages@.len() as int) =~= messages@);
}

/// A batch that has been open too long.
pub open spec fn batch_overdue(b: BatchV, now: u64) -> bool {
    now - b.started_at >= BATCH_MS
}

/// The references of the batches that have been open too long.
pub open spec fn overdue_refs(open: Map<Seq<char>, BatchV>, keys: Seq<Seq<char>>, now: u64) -> Seq<Seq<char>>
    decreases keys.len(),
{
    if keys.len() == 0 {
        Seq::empty()
    } else {
        let init = overdue_refs(open, keys.drop_last(), now);
        if batch_overdue(open[keys.last()], now) {
            init.push(keys.last())
        } else {
            init
        }
    }
}

/// Batches of a connection under their references.
pub open spec fn batches_at(open: Map<Seq<char>, BatchV>, conn: Seq<char>, refs: Seq<Seq<char>>) -> Seq<
    ExpiredV,
> {
    refs.map_values(|r: Seq<char>| ExpiredV { conn, reference: r, batch: open[r] })
}

/// The open batches without some.
pub open spec fn closed_all(open: Map<Seq<char>, BatchV>, refs: Seq<Seq<char>>) -> Map<Seq<char>, BatchV>
    decreases refs.len(),
{
    if refs.len() == 0 {
        open
    } else {
        closed_all(open, refs.drop_last()).remove(refs.last())
    }
}

/// Closing some batches leaves every other as it is.
proof fn lemma_closed_all(open: Map<Seq<char>, BatchV>, refs: Seq<Seq<char>>, k: Seq<char>)
    requires
        !refs.contains(k),
    ensures
        closed_all(open, refs).contains_key(k) == open.contains_key(k),
        open.contains_key(k) ==> closed_all(open, refs)[k] == open[k],
    decreases refs.len(),
{
    if refs.len() > 0 {
        let rest = refs.drop_last();
        assert(!rest.contains(k)) by {
            if rest.contains(k) {
                let i = rest.index_of(k);
                assert(refs[i] == k);
            }
        }
        assert(refs[refs.len() - 1] != k);
        lemma_closed_all(open, rest, k);
    }
}

/// The references are keys, each once.
proof fn lemma_overdue_refs(open: Map<Seq<char>, BatchV>, keys: Seq<Seq<char>>, now: u64)
    requires
        keys.no_duplicates(),
    ensures
        overdue_refs(open, keys, now).no_duplicates(),
        forall|i: int|
            0 <= i < overdue_refs(open, keys, now).len() ==> keys.contains(
                #[trigger] overdue_refs(open, keys, now)[i],
            ),
    decreases keys.len(),
{
    if keys.len() > 0 {
        let rest = keys.drop_last();
        let last = keys.last();
        assert(rest.no_duplicates());
        lemma_overdue_refs(open, rest, now);
        let init = overdue_refs(open, rest, now);
        let all = overdue_refs(open, keys, now);
        assert forall|i: int| 0 <= i < init.len() implies #[trigger] init[i] != last && keys.contains(
            init[i],
        ) by {
            assert(rest.contains(init[i]));
            let j = rest.index_of(init[i]);
            assert(keys[j] == init[i]);
        }
        assert(keys[keys.len() - 1] == last);
        assert forall|i: int, j: int| 0 <= i < j < all.len() implies all[i] != all[j] by {
            if j < init.len() {
                assert(init[i] != init[j]);
            } else {
                assert(init[i] != last);
            }
        }
        assert forall|i: int| 0 <= i < all.len() implies keys.contains(#[trigger] all[i]) by {
            if i < init.len() {
                assert(keys.contains(init[i]));
            }
        }
    }
}

/// Takes out the batches of a connection that have been open too long.
fn take_overdue(tracker: &mut BatchTracker, conn: &str, now: u64) -> (r: Vec<Expired>)
    ensures
        ({
            let open = old(tracker).batches();
            let refs = overdue_refs(open, old(tracker).open.keys(), now);
            &&& expired_views(r@) == batches_at(open, conn@, refs)
            &&& final(tracker).batches() == closed_all(open, refs)
        }),
        old(tracker).open.ordered(),
        final(tracker).next_order == old(tracker).next_order,
{
    let ghost open = tracker.batches();
    let ghost keys = tracker.open.keys();
    let n: usize = tracker.open.len();
    let mut refs: Vec<String> = Vec::new();
    let mut i: usize = 0;
    assert(keys.take(0) =~= Seq::<Seq<char>>::empty());
    assert(texts(refs@) =~= Seq::<Seq<char>>::empty());
    while i < n
        invariant
            keys == tracker.open.keys(),
            open == tracker.batches(),
            n == keys.len(),
            i <= n,
            texts(refs@) == overdue_refs(open, keys.take(i as int), now),
        decreases n - i,
    {
        let b = tracker.open.value_at(i);
        assert(keys.take(i + 1).drop_last() =~= keys.take(i as int));
        assert(keys.take(i + 1).last() == keys[i as int]);
        assert(open[keys[i as int]] == b@);
        if now >= b.started_at && now - b.started_at >= BATCH_MS {
            let ghost was = texts(refs@);
            let key = tracker.open.key_at(i).clone();
            let ghost k = key@;
            refs.push(key);
            assert(texts(refs@) =~= was.push(k));
        }
        i = i + 1;
    }
    assert(keys.take(n as int) =~= keys);
    let ghost rv = texts(refs@);
    proof {
        assert(tracker.open.ordered());
        lemma_overdue_refs(open, keys, now);
    }
    let mut r: Vec<Expired> = Vec::new();
    let mut k: usize = 0;
    assert(rv.take(0) =~= Seq::<Seq<char>>::empty());
    assert(expired_views(r@) =~= batches_at(open, conn@, rv).take(0));
    assert(tracker.open.ordered());
    assert forall|j: int| 0 <= j < rv.len() implies open.contains_key(#[trigger] rv[j]) by {
        assert(keys.contains(rv[j]));
    }
    while k < refs.len()
        invariant
            k <= refs@.len(),
            rv == texts(refs@),
            rv.no_duplicates(),
            forall|j: int| 0 <= j < rv.len() ==> open.contains_key(#[trigger] rv[j]),
            tracker.batches() == closed_all(open, rv.take(k as int)),
            tracker.next_order == old(tracker).next_order,
            expired_views(r@) == batches_at(open, conn@, rv).take(k as int),
        decreases refs@.len() - k,
    {
        let reference = refs[k].clone();
        let ghost rf = rv[k as int];
        proof {
            assert(reference@ == rf);
            assert(!rv.take(k as int).contains(rf)) by {
                if rv.take(k as int).contains(rf) {
                    let j = rv.take(k as int).index_of(rf);
                    assert(rv[j] == rv[k as int]);
                }
            }
            lemma_closed_all(open, rv.take(k as int), rf);
            assert(rv.take(k + 1).drop_last() =~= rv.take(k as int));
            assert(rv.take(k + 1).last() == rf);
        }
        match tracker.end_batch(reference.as_str()) {
            None => {},
            Some(batch) => {
                let ghost was = expired_views(r@);
                let e = Expired { conn: conn.to_string(), reference, batch };
                let ghost ev = e@;
                r.push(e);
                proof {
                    assert(expired_views(r@) =~= was.push(ev));
                    assert(ev == batches_at(open, conn@, rv)[k as int]);
                    assert(expired_views(r@) =~= batches_at(open, conn@, rv).take(k + 1));
                }
            },
        }
        k = k + 1;
    }
    proof {
        assert(rv.take(rv.len() as int) =~= rv);
        assert(batches_at(open, conn@, rv).take(rv.len() as int) =~= batches_at(open, conn@, rv));
    }
    r
}

/// The batches of a connection that have been open too long were taken out.
pub open spec fn overdue_step(
    t0: Map<Seq<char>, BatchTracker>,
    t1: Map<Seq<char>, BatchTracker>,
    conn: Seq<char>,
    now: u64,
    before: Seq<ExpiredV>,
    list: Seq<ExpiredV>,
) -> bool {
    let refs = overdue_refs(t0[conn].batches(), t0[conn].open.keys(), now);
    &&& t0[conn].open.ordered()
    &&& list == before + batches_at(t0[conn].batches(), conn, refs)
    &&& all_batches(t1) == all_batches(t0).insert(conn, closed_all(t0[conn].batches(), refs))
}

/// The batches of connections that have been open too long were taken out, one connection after the
/// other.
pub open spec fn overdue_taken(
    t0: Map<Seq<char>, BatchTracker>,
    t1: Map<Seq<char>, BatchTracker>,
    conns: Seq<Seq<char>>,
    now: u64,
    list: Seq<ExpiredV>,
) -> bool
    decreases conns.len(),
{
    if conns.len() == 0 {
        all_batches(t1) == all_batches(t0) && list.len() == 0
    } else {
        exists|tm: Map<Seq<char>, BatchTracker>, before: Seq<ExpiredV>|
            {
                &&& overdue_taken(t0, tm, conns.drop_last(), now, before)
                &&& #[trigger] overdue_step(tm, t1, conns.last(), now, before, list)
            }
    }
}

/// Takes out the batches of all connections that have been open too long.
fn take_all_overdue(trackers: &mut StrMap<BatchTracker>, now: u64) -> (r: Vec<Expired>)
    ensures
        overdue_taken(
            old(trackers)@,
            final(trackers)@,
            old(trackers).keys(),
            now,
            expired_views(r@),
        ),
        orders(final(trackers)@) == orders(old(trackers)@),
{
    let ghost t0 = trackers@;
    let ghost conns = trackers.keys();
    let n: usize = trackers.len();
    let mut r: Vec<Expired> = Vec::new();
    let mut i: usize = 0;
    assert(conns.take(0) =~= Seq::<Seq<char>>::empty());
    while i < n
        invariant
            conns == trackers.keys(),
            n == conns.len(),
            i <= n,
            overdue_taken(t0, trackers@, conns.take(i as int), now, expired_views(r@)),
            orders(trackers@) == orders(t0),
        decreases n - i,
    {
        let conn = trackers.key_at(i).clone();
        let ghost tm = trackers@;
        let ghost before = expired_views(r@);
        let mut some: Vec<Expired> = Vec::new();
        match trackers.get_mut(conn.as_str()) {
            None => {},
            Some(t) => {
                some = take_overdue(t, conn.as_str(), now);
            },
        }
        let ghost sv = expired_views(some@);
        let ghost rr = r@;
        let ghost ss = some@;
        r.append(&mut some);
        proof {
            assert(orders(trackers@) =~= orders(tm));
            assert(expired_views(r@) =~= before + sv);
            assert(conns.take(i + 1).drop_last() =~= conns.take(i as int));
            assert(conns.take(i + 1).last() == conn@);
            let refs = overdue_refs(tm[conn@].batches(), tm[conn@].open.keys(), now);
            assert(all_batches(trackers@) =~= all_batches(tm).insert(
                conn@,
                closed_all(tm[conn@].batches(), refs),
            ));
            assert(overdue_step(
                tm,
                trackers@,
                conns.take(i + 1).last(),
                now,
                before,
                expired_views(r@),
            ));
        }
        i = i + 1;
    }
    assert(conns.take(n as int) =~= conns);
    r
}

/// Closes the batches that have been open too long, as a server that failed to would have left them:
/// nested live ones are folded into the ones around them, and what is left is dispatched.
pub fn purge_expired_batches(
    trackers: &mut StrMap<BatchTracker>,
    searches: &mut Searches,
    state: &mut AppState,
    now: Clock,
) -> (r: Vec<Outcome>)
    ensures
        exists|tm: Map<Seq<char>, BatchTracker>, list: Seq<ExpiredV>|
            {
                let folded = all_folded(all_batches(tm), list);
                &&& #[trigger] overdue_taken(old(trackers)@, tm, old(trackers).keys(), now.mono_ms, list)
                &&& all_batches(final(trackers)@) == folded.0
                &&& all_dispatched(
                    *old(state),
                    *final(state),
                    *old(searches),
                    *final(searches),
                    folded.1,
                    now,
                    r@,
                )
            },
        orders(final(trackers)@) == orders(old(trackers)@),
{
    let ghost t0 = trackers@;
    let ghost conns = trackers.keys();
    let list = take_all_overdue(trackers, now.mono_ms);
    let ghost tm = trackers@;
    assert(overdue_taken(t0, tm, conns, now.mono_ms, expired_views(list@)));
    dispatch_expired_batch_set(trackers, searches, state, list, now)
}

/// A connection whose unanswered requests were given up.
pub open spec fn requests_released(before: Connection, after: Connection, now: u64) -> bool {
    let h0 = before.chathistory;
    let h1 = after.chathistory;
    &&& after == (Connection { chathistory: h1, ..before })
    &&& h1 == (ChatHistory { in_flight: h1.in_flight, ..h0 })
    &&& forall|t: Seq<char>| #[trigger]
        h1.in_flight@.contains_key(t) <==> h0.in_flight@.contains_key(t) && !h0.stale(t, now)
    &&& forall|t: Seq<char>| #[trigger]
        h1.in_flight@.contains_key(t) ==> h1.in_flight@[t] == h0.in_flight@[t]
}

/// Gives up the requests for history that the servers never answered.
pub fn purge_stale_chathistory_requests(state: &mut AppState, now: u64)
    ensures
        *final(state) == (AppState { connections: final(state).connections, ..*old(state) }),
        final(state).connections.keys() == old(state).connections.keys(),
        final(state).connections@.dom() == old(state).connections@.dom(),
        forall|k: Seq<char>| #[trigger]
            old(state).connections@.contains_key(k) ==> requests_released(
                old(state).connections@[k],
                final(state).connections@[k],
                now,
            ),
{
    let ghost before = *state;
    let ghost keys = state.connections.keys();
    let n: usize = state.connections.len();
    let mut i: usize = 0;
    assert(state.connections.ordered());
    while i < n
        invariant
            keys == state.connections.keys(),
            keys == before.connections.keys(),
            keys.no_duplicates(),
            n == keys.len(),
            i <= n,
            *state == (AppState { connections: state.connections, ..before }),
            state.connections@.dom() == before.connections@.dom(),
            forall|j: int| 0 <= j < n ==> before.connections@.contains_key(#[trigger] keys[j]),
            forall|j: int|
                0 <= j < i ==> requests_released(
                    before.connections@[#[trigger] keys[j]],
                    state.connections@[keys[j]],
                    now,
                ),
            forall|j: int|
                i <= j < n ==> state.connections@[#[trigger] keys[j]] == before.connections@[keys[j]],
        decreases n - i,
    {
        let id = state.connections.key_at(i).clone();
        let ghost was = state.connections@;
        match state.connections.get_mut(id.as_str()) {
            None => {},
            Some(c) => c.chathistory.clear_stale(now),
        }
        proof {
            assert(id@ == keys[i as int]);
            assert(state.connections@.dom() =~= was.dom());
            assert forall|j: int| 0 <= j < i + 1 implies requests_released(
                before.connections@[#[trigger] keys[j]],
                state.connections@[keys[j]],
                now,
            ) by {
                if j < i {
                    assert(keys[j] != keys[i as int]);
                    assert(state.connections@[keys[j]] == was[keys[j]]);
                }
            }
            assert forall|j: int| i + 1 <= j < n implies state.connections@[#[trigger] keys[j]]
                == before.connections@[keys[j]] by {
                assert(keys[j] != keys[i as int]);
                assert(state.connections@[keys[j]] == was[keys[j]]);
            }
        }
        i = i + 1;
    }
    proof {
        assert forall|k: Seq<char>| #[trigger] before.connections@.contains_key(k) implies requests_released(
            before.connections@[k],
            state.connections@[k],
            now,
        ) by {
            assert(before.connections.ordered());
            let j = keys.index_of(k);
            assert(keys[j] == k);
        }
    }
}

/// Whether the events of the log are to be purged now: at most once an hour, and not where they are kept
/// for good.
pub fn maybe_purge_old_events(last: &mut u64, retention_hours: u32, now: u64) -> (r: bool)
    ensures
        r == (retention_hours > 0 && now - *old(last) >= PURGE_MS),
        *final(last) == (if r {
            now
        } else {
            *old(last)
        }),
{
    if retention_hours == 0 {
        return false;
    }
    if now < *last || now - *last < PURGE_MS {
        return false;
    }
    *last = now;
    true
}

/// The lines from a time on.
pub open spec fn since(messages: Seq<Message>, cutoff: i64) -> Seq<Message>
    decreases messages.len(),
{
    if messages.len() == 0 {
        Seq::empty()
    } else {
        let init = since(messages.drop_last(), cutoff);
        if messages.last().at_ms >= cutoff {
            init.push(messages.last())
        } else {
            init
        }
    }
}

/// The mentions that stay: not the old ones, and of too many the last.
pub open spec fn mentions_left(messages: Seq<Message>, cutoff: i64) -> Seq<Message> {
    let rest = since(messages, cutoff);
    if rest.len() > MENTIONS_MAX {
        rest.skip(rest.len() - MENTIONS_MAX)
    } else {
        rest
    }
}

/// Mentions before this time are purged, in seconds since the Unix epoch.
pub open spec fn mention_cutoff(now: Clock) -> int {
    slot(now.utc_ms, 1000) - MENTION_SECS
}

/// Purges the mentions in memory that are too old or too many.
fn purge_mentions(messages: &mut Vec<Message>, cutoff: i64)
    ensures
        final(messages)@ == mentions_left(old(messages)@, cutoff),
{
    let ghost all = messages@;
    let mut rest: Vec<Message> = Vec::new();
    std::mem::swap(&mut rest, messages);
    let mut kept: Vec<Message> = Vec::new();
    let ghost mut i: int = 0;
    assert(all.take(0) =~= Seq::<Message>::empty());
    assert(rest@ =~= all.skip(0));
    while rest.len() > 0
        invariant
            0 <= i <= all.len(),
            rest@ == all.skip(i),
            kept@ == since(all.take(i), cutoff),
        decreases rest@.len(),
    {
        let m = rest.remove(0);
        proof {
            assert(m == all[i]);
            assert(rest@ =~= all.skip(i + 1));
            assert(all.take(i + 1).drop_last() =~= all.take(i));
            assert(all.take(i + 1).last() == m);
            i = i + 1;
        }
        if m.at_ms >= cutoff {
            kept.push(m);
        }
    }
    assert(all.take(i) =~= all);
    let ghost left = kept@;
    let ghost mut gone: int = 0;
    assert(kept@ =~= left.skip(0));
    while kept.len() > MENTIONS_MAX
        invariant
            0 <= gone <= left.len(),
            kept@ == left.skip(gone),
            gone > 0 ==> kept@.len() >= MENTIONS_MAX,
        decreases kept@.len(),
    {
        let _old = kept.remove(0);
        proof {
            assert(kept@ =~= left.skip(gone + 1));
            gone = gone + 1;
        }
    }
    *messages = kept;
}

/// Purges old mentions, at most once an hour, from their buffer and from those that are kept in memory
/// alone; returns the time in seconds before which the stored ones are to be purged too.
pub fn maybe_purge_old_mentions(
    state: &mut AppState,
    volatile: &mut Vec<MentionRow>,
    last: &mut u64,
    now: Clock,
) -> (r: Option<i64>)
    ensures
        if now.mono_ms - *old(last) < PURGE_MS {
            &&& r is None
            &&& *final(last) == *old(last)
            &&& *final(state) == *old(state)
            &&& final(volatile)@ == old(volatile)@
        } else {
            let id = MENTIONS_BUFFER_ID@;
            &&& r matches Some(secs) && secs == mention_cutoff(now)
            &&& final(volatile)@ == recent_rows(old(volatile)@, mention_cutoff(now) as i64)
            &&& *final(last) == now.mono_ms
            &&& if old(state).buffers@.contains_key(id) {
                let cutoff = match calendar_millis(mention_cutoff(now) as i64) {
                    Some(ms) => ms,
                    None => now.utc_ms,
                };
                &&& *final(state) == (AppState { buffers: final(state).buffers, ..*old(state) })
                &&& final(state).buffers.keys() == old(state).buffers.keys()
                &&& final(state).buffers@ == old(state).buffers@.insert(id, final(state).buffers@[id])
                &&& final(state).buffers@[id] == (Buffer {
                    messages: final(state).buffers@[id].messages,
                    ..old(state).buffers@[id]
                })
                &&& final(state).buffers@[id].messages@ == mentions_left(
                    old(state).buffers@[id].messages@,
                    cutoff,
                )
            } else {
                *final(state) == *old(state)
            }
        },
{
    if now.mono_ms < *last || now.mono_ms - *last < PURGE_MS {
        return None;
    }
    *last = now.mono_ms;
    let secs: i64 = slot_of(now.utc_ms, 1000) - MENTION_SECS;
    keep_recent(volatile, secs);
    let cutoff: i64 = match millis_of_seconds(secs) {
        Some(ms) => ms,
        None => now.utc_ms,
    };
    match state.buffers.get_mut(MENTIONS_BUFFER_ID) {
        None => {},
        Some(b) => purge_mentions(&mut b.messages, cutoff),
    }
    Some(secs)
}

/// Whether the days of a buffer are marked.
pub open spec fn marks_days(kind: BufferType) -> bool {
    ||| kind == BufferType::Channel
    ||| kind == BufferType::Query
    ||| kind == BufferType::DccChat
    ||| kind == BufferType::Server
}

/// The buffers whose days are marked.
pub open spec fn day_buffers(state: AppState, ids: Seq<Seq<char>>) -> Seq<Seq<char>>
    decreases ids.len(),
{
    if ids.len() == 0 {
        Seq::empty()
    } else {
        let init = day_buffers(state, ids.drop_last());
        if marks_days(state.buffers@[ids.last()].buffer_type) {
            init.push(ids.last())
        } else {
            init
        }
    }
}

/// A day was marked in a buffer.
pub open spec fn day_marked(
    before: AppState,
    after: AppState,
    id: Seq<char>,
    text: Seq<char>,
    now_ms: i64,
) -> bool {
    &&& after == (AppState {
        buffers: after.buffers,
        message_counter: id_after(before.message_counter),
        ..before
    })
    &&& appended_at(
        before.buffers,
        after.buffers,
        id,
        seq![event_v(id_after(before.message_counter), now_ms, text, Some("date_separator"@))],
    )
}

/// A day was marked in buffers, one after the other.
pub open spec fn days_marked(
    before: AppState,
    after: AppState,
    ids: Seq<Seq<char>>,
    text: Seq<char>,
    now_ms: i64,
) -> bool
    decreases ids.len(),
{
    if ids.len() == 0 {
        after == before
    } else {
        exists|middle: AppState|
            days_marked(before, middle, ids.drop_last(), text, now_ms) && #[trigger] day_marked(
                middle,
                after,
                ids.last(),
                text,
                now_ms,
            )
    }
}

/// The buffers whose days are marked.
fn buffers_with_days(state: &AppState) -> (r: Vec<String>)
    ensures
        texts(r@) == day_buffers(*state, state.buffers.keys()),
{
    let ghost keys = state.buffers.keys();
    let mut r: Vec<String> = Vec::new();
    let n: usize = state.buffers.len();
    let mut i: usize = 0;
    assert(keys.take(0) =~= Seq::<Seq<char>>::empty());
    assert(texts(r@) =~= Seq::<Seq<char>>::empty());
    while i < n
        invariant
            keys == state.buffers.keys(),
            n == keys.len(),
            i <= n,
            texts(r@) == day_buffers(*state, keys.take(i as int)),
        decreases n - i,
    {
        let kind = state.buffers.value_at(i).buffer_type;
        assert(keys.take(i + 1).drop_last() =~= keys.take(i as int));
        assert(keys.take(i + 1).last() == keys[i as int]);
        if kind == BufferType::Channel || kind == BufferType::Query || kind == BufferType::DccChat || kind
            == BufferType::Server {
            let ghost was = texts(r@);
            let key = state.buffers.key_at(i).clone();
            let ghost k = key@;
            r.push(key);
            assert(texts(r@) =~= was.push(k));
        }
        i = i + 1;
    }
    assert(keys.take(n as int) =~= keys);
    r
}

/// Marks a new day in every conversation and server buffer. `text` is how the day is written out.
pub fn check_day_changed(state: &mut AppState, last_day: &mut i64, today: i64, text: &str, now_ms: i64) -> (r:
    bool)
    ensures
        r == (today != *old(last_day)),
        *final(last_day) == today,
        if r {
            days_marked(
                *old(state),
                *final(state),
                day_buffers(*old(state), old(state).buffers.keys()),
                text@,
                now_ms,
            )
        } else {
            *final(state) == *old(state)
        },
{
    if today == *last_day {
        return false;
    }
    *last_day = today;
    let ids = buffers_with_days(state);
    let ghost before = *state;
    let ghost all = texts(ids@);
    let mut i: usize = 0;
    assert(all.take(0) =~= Seq::<Seq<char>>::empty());
    while i < ids.len()
        invariant
            i <= ids@.len(),
            all == texts(ids@),
            days_marked(before, *state, all.take(i as int), text@, now_ms),
        decreases ids@.len() - i,
    {
        let ghost middle = *state;
        state.add_event(ids[i].as_str(), text.to_string(), Some("date_separator".to_string()), now_ms);
        proof {
            assert(all.take(i + 1).drop_last() =~= all.take(i as int));
            assert(all.take(i + 1).last() == ids@[i as int]@);
            assert(day_marked(middle, *state, all.take(i + 1).last(), text@, now_ms));
        }
        i = i + 1;
    }
    assert(all.take(all.len() as int) =~= all);
    true
}

/// The pings of a connection, in monotonic milliseconds.
#[derive(Clone, Copy, Debug, PartialEq, Eq, Structural)]
pub struct Ping {
    /// When the last one was sent.
    pub sent: u64,
    /// When the first one was sent since the connection last answered.
    pub waiting_since: u64,
}

/// Everything that measuring the lag touches.
pub struct LagWorld {
    pub state: AppState,
    pub handles: Map<Seq<char>, IrcHandle>,
    pub pings: Map<Seq<char>, Ping>,
}

/// A connection was pinged and has not answered since.
pub open spec fn unanswered(w: LagWorld, id: Seq<char>) -> bool {
    w.pings.contains_key(id) && w.state.connections@[id].lag_pending
}

/// A ping was left unanswered too long.
pub open spec fn ping_timed_out(w: LagWorld, id: Seq<char>, now: u64) -> bool {
    unanswered(w, id) && now - w.pings[id].waiting_since >= PING_TIMEOUT_MS
}

/// It is time for the next ping.
pub open spec fn ping_due(w: LagWorld, id: Seq<char>, now: u64) -> bool {
    !w.pings.contains_key(id) || now - w.pings[id].sent >= PING_MS
}

/// The stamp of a ping: the time in milliseconds since the Unix epoch.
pub open spec fn ping_stamp(now: Clock) -> Seq<char> {
    decimal_seq(
        if now.utc_ms < 0 {
            0
        } else {
            now.utc_ms as nat
        },
    )
}

/// What is said of a connection that answers no more.
pub open spec fn timeout_text(id: Seq<char>) -> Seq<char> {
    "Connection to "@ + id + " timed out (no PONG for 5 minutes)"@
}

/// One connection's part of measuring the lag: one that answers no more is told to close, and every
/// other is pinged when it is time.
pub open spec fn lag_measured(w0: LagWorld, w1: LagWorld, id: Seq<char>, now: Clock) -> bool {
    if !w0.state.connections@.contains_key(id) || w0.state.connections@[id].status
        != ConnectionStatus::Connected {
        w1 == w0
    } else if ping_timed_out(w0, id, now.mono_ms) {
        &&& w1.pings == w0.pings
        &&& event_added(
            w0.state,
            w1.state,
            buffer_id_seq(id, w0.state.connections@[id].label@),
            timeout_text(id),
            now.utc_ms,
        )
        &&& w1.handles == w0.handles.insert(id, w1.handles[id])
        &&& handle_took(
            w0.handles[id],
            w1.handles[id],
            seq![untagged("QUIT"@, seq!["Ping timeout"@])],
        )
    } else if ping_due(w0, id, now.mono_ms) {
        &&& w1.pings == w0.pings.insert(
            id,
            Ping {
                sent: now.mono_ms,
                waiting_since: if unanswered(w0, id) {
                    w0.pings[id].waiting_since
                } else {
                    now.mono_ms
                },
            },
        )
        &&& w1.state == (AppState { connections: w1.state.connections, ..w0.state })
        &&& w1.state.connections@ == w0.state.connections@.insert(
            id,
            Connection { lag_pending: true, ..w0.state.connections@[id] },
        )
        &&& w1.state.connections.keys() == w0.state.connections.keys()
        &&& w1.handles == w0.handles.insert(id, w1.handles[id])
        &&& handle_took(
            w0.handles[id],
            w1.handles[id],
            seq![untagged("PING"@, seq![ping_stamp(now)])],
        )
    } else {
        w1 == w0
    }
}

/// The lag of connections was measured, one after the other.
pub open spec fn lags_measured(w0: LagWorld, w1: LagWorld, ids: Seq<Seq<char>>, now: Clock) -> bool
    decreases ids.len(),
{
    if ids.len() == 0 {
        w1 == w0
    } else {
        exists|w: LagWorld|
            lags_measured(w0, w, ids.drop_last(), now) && #[trigger] lag_measured(
                w,
                w1,
                ids.last(),
                now,
            )
    }
}

/// Hands one command to a connection.
fn send_one(handles: &mut StrMap<IrcHandle>, id: &str, command: crate::wire::Command)
    requires
        old(handles)@.contains_key(id@),
    ensures
        final(handles).keys() == old(handles).keys(),
        final(handles)@ == old(handles)@.insert(id@, final(handles)@[id@]),
        handle_took(old(handles)@[id@], final(handles)@[id@], seq![command@]),
{
    match handles.get_mut(id) {
        None => {},
        Some(handle) => {
            let ghost s0 = handle.sender;
            let ghost cv = command@;
            let _sent = handle.sender.send(command);
            proof {
                lemma_took_one(s0, handle.sender, cv);
            }
        },
    }
}

/// Measures the lag of one connection.
fn measure_one(
    state: &mut AppState,
    handles: &mut StrMap<IrcHandle>,
    pings: &mut StrMap<Ping>,
    id: &str,
    now: Clock,
)
    requires
        old(handles)@.contains_key(id@),
    ensures
        final(handles).keys() == old(handles).keys(),
        lag_measured(
            (LagWorld { state: *old(state), handles: old(handles)@, pings: old(pings)@ }),
            (LagWorld { state: *final(state), handles: final(handles)@, pings: final(pings)@ }),
            id@,
            now,
        ),
{
    let (pending, label) = match state.connections.get(id) {
        None => {
            return;
        },
        Some(c) => {
            if c.status != ConnectionStatus::Connected {
                return;
            }
            (c.lag_pending, c.label.clone())
        },
    };
    let last: Option<Ping> = match pings.get(id) {
        Some(ping) => Some(*ping),
        None => None,
    };
    let late = match last {
        Some(ping) => pending && now.mono_ms >= ping.waiting_since && now.mono_ms - ping.waiting_since
            >= PING_TIMEOUT_MS,
        None => false,
    };
    if late {
        let buffer = make_buffer_id(id, label.as_str());
        let text = concat3("Connection to ", id, " timed out (no PONG for 5 minutes)");
        add_event_to_buffer(state, buffer.as_str(), text, now.utc_ms);
        send_one(handles, id, command1("QUIT", "Ping timeout"));
        return;
    }
    let due = match last {
        Some(ping) => now.mono_ms >= ping.sent && now.mono_ms - ping.sent >= PING_MS,
        None => true,
    };
    if due {
        let stamp: u64 = if now.utc_ms < 0 {
            0
        } else {
            now.utc_ms as u64
        };
        send_one(handles, id, command1("PING", decimal(stamp).as_str()));
        let waiting_since: u64 = match last {
            Some(ping) if pending => ping.waiting_since,
            _ => now.mono_ms,
        };
        pings.insert(id.to_string(), Ping { sent: now.mono_ms, waiting_since });
        match state.connections.get_mut(id) {
            None => {},
            Some(c) => {
                c.lag_pending = true;
            },
        }
    }
}

/// Measures the lag of every connection.
pub fn measure_lag(
    state: &mut AppState,
    handles: &mut StrMap<IrcHandle>,
    pings: &mut StrMap<Ping>,
    now: Clock,
)
    ensures
        lags_measured(
            (LagWorld { state: *old(state), handles: old(handles)@, pings: old(pings)@ }),
            (LagWorld { state: *final(state), handles: final(handles)@, pings: final(pings)@ }),
            old(handles).keys(),
            now,
        ),
        final(handles).keys() == old(handles).keys(),
{
    let ghost w0 = LagWorld { state: *state, handles: handles@, pings: pings@ };
    let ghost ids = handles.keys();
    let n: usize = handles.len();
    let mut i: usize = 0;
    assert(ids.take(0) =~= Seq::<Seq<char>>::empty());
    while i < n
        invariant
            ids == handles.keys(),
            n == ids.len(),
            i <= n,
            lags_measured(
                w0,
                (LagWorld { state: *state, handles: handles@, pings: pings@ }),
                ids.take(i as int),
                now,
            ),
        decreases n - i,
    {
        let id = handles.key_at(i).clone();
        let ghost w = LagWorld { state: *state, handles: handles@, pings: pings@ };
        measure_one(state, handles, pings, id.as_str(), now);
        proof {
            let w1 = LagWorld { state: *state, handles: handles@, pings: pings@ };
            assert(ids.take(i + 1).drop_last() =~= ids.take(i as int));
            assert(ids.take(i + 1).last() == id@);
            assert(lag_measured(w, w1, ids.take(i + 1).last(), now));
        }
        i = i + 1;
    }
    assert(ids.take(n as int) =~= ids);
}

/// What one run of measuring the lag does to one of the connections: the others leave it alone.
proof fn lemma_own_step(w0: LagWorld, w1: LagWorld, ids: Seq<Seq<char>>, id: Seq<char>, now: Clock)
    requires
        lags_measured(w0, w1, ids, now),
        ids.no_duplicates(),
    ensures
        same_connection(w0, w1, id) || (ids.contains(id) && exists|a: LagWorld, b: LagWorld|
            same_connection(w0, a, id) && #[trigger] lag_measured(a, b, id, now) && same_connection(
                b,
                w1,
                id,
            )),
        !ids.contains(id) ==> same_connection(w0, w1, id),
        ids.contains(id) ==> exists|a: LagWorld, b: LagWorld|
            same_connection(w0, a, id) && #[trigger] lag_measured(a, b, id, now) && same_connection(
                b,
                w1,
                id,
            ),
    decreases ids.len(),
{
    if ids.len() > 0 {
        let w = choose|w: LagWorld|
            lags_measured(w0, w, ids.drop_last(), now) && #[trigger] lag_measured(
                w,
                w1,
                ids.last(),
                now,
            );
        lemma_own_step(w0, w, ids.drop_last(), id, now);
        if ids.last() == id {
            assert(!ids.drop_last().contains(id)) by {
                if ids.drop_last().contains(id) {
                    let j = ids.drop_last().index_of(id);
                    assert(ids[j] == ids[ids.len() - 1]);
                }
            }
            assert(ids.contains(id)) by {
                assert(ids[ids.len() - 1] == id);
            }
            assert(lag_measured(w, w1, id, now));
            assert(same_connection(w1, w1, id));
        } else {
            assert(same_connection(w, w1, id));
            if ids.contains(id) {
                let j = ids.index_of(id);
                assert(ids.drop_last()[j] == id);
                assert(ids.drop_last().contains(id));
            } else {
                assert forall|j: int| 0 <= j < ids.drop_last().len() implies ids.drop_last()[j] != id by {
                    assert(ids[j] != id);
                }
            }
        }
    }
}

/// Two worlds agree on a connection: what was sent to it, its pings and its state.
pub open spec fn same_connection(w0: LagWorld, w1: LagWorld, id: Seq<char>) -> bool {
    &&& w1.handles.contains_key(id) == w0.handles.contains_key(id)
    &&& w1.handles[id] == w0.handles[id]
    &&& w1.pings.contains_key(id) == w0.pings.contains_key(id)
    &&& w1.pings[id] == w0.pings[id]
    &&& w1.state.connections@.contains_key(id) == w0.state.connections@.contains_key(id)
    &&& w1.state.connections@[id] == w0.state.connections@[id]
}

/// A connection that is there and was pinged first at `since` has not answered.
pub open spec fn silent_since(w: LagWorld, id: Seq<char>, since: u64) -> bool {
    &&& w.handles.contains_key(id)
    &&& w.state.connections@.contains_key(id)
    &&& w.state.connections@[id].status == ConnectionStatus::Connected
    &&& unanswered(w, id)
    &&& w.pings[id].waiting_since == since
}

/// The connection was told to close, and its server buffer tells why.
pub open spec fn given_up(w0: LagWorld, w1: LagWorld, id: Seq<char>, now: Clock) -> bool {
    &&& handle_took(
        w0.handles[id],
        w1.handles[id],
        seq![untagged("QUIT"@, seq!["Ping timeout"@])],
    )
    &&& exists|a: AppState, b: AppState| #[trigger]
        event_added(
            a,
            b,
            buffer_id_seq(id, w0.state.connections@[id].label@),
            timeout_text(id),
            now.utc_ms,
        )
}

/// Runs that come before the time is up change neither that a connection is waited for nor since when.
proof fn lemma_waiting_goes_on(
    worlds: Seq<LagWorld>,
    runs: Seq<Clock>,
    ids: Seq<Seq<char>>,
    id: Seq<char>,
    since: u64,
    n: int,
)
    requires
        0 <= n < worlds.len(),
        n <= runs.len(),
        ids.no_duplicates(),
        silent_since(worlds[0], id, since),
        forall|i: int|
            0 <= i < n ==> #[trigger] lags_measured(worlds[i], worlds[i + 1], ids, runs[i]),
        forall|i: int| 0 <= i < n ==> (#[trigger] runs[i]).mono_ms < since + PING_TIMEOUT_MS,
    ensures
        silent_since(worlds[n], id, since),
    decreases n,
{
    if n > 0 {
        lemma_waiting_goes_on(worlds, runs, ids, id, since, n - 1);
        assert(lags_measured(worlds[n - 1], worlds[n - 1 + 1], ids, runs[n - 1]));
        assert(runs[n - 1].mono_ms < since + PING_TIMEOUT_MS);
        lemma_own_step(worlds[n - 1], worlds[n], ids, id, runs[n - 1]);
    }
}

/// A connection that never answers is given up: however often the lag is measured meanwhile, the first
/// run that comes five minutes or more after the first unanswered ping tells it to close and says so.
pub proof fn silent_connections_are_given_up(
    worlds: Seq<LagWorld>,
    runs: Seq<Clock>,
    ids: Seq<Seq<char>>,
    id: Seq<char>,
    since: u64,
)
    requires
        runs.len() > 0,
        worlds.len() == runs.len() + 1,
        ids.no_duplicates(),
        ids.contains(id),
        silent_since(worlds[0], id, since),
        forall|i: int|
            0 <= i < runs.len() ==> #[trigger] lags_measured(worlds[i], worlds[i + 1], ids, runs[i]),
        forall|i: int|
            0 <= i < runs.len() - 1 ==> (#[trigger] runs[i]).mono_ms < since + PING_TIMEOUT_MS,
        runs.last().mono_ms >= since + PING_TIMEOUT_MS,
    ensures
        given_up(worlds[runs.len() - 1], worlds[runs.len() as int], id, runs.last()),
{
    let n = runs.len() - 1;
    lemma_waiting_goes_on(worlds, runs, ids, id, since, n);
    assert(lags_measured(worlds[n], worlds[n + 1], ids, runs[n]));
    lemma_own_step(worlds[n], worlds[n + 1], ids, id, runs[n]);
}

/// A connection that answered, or was never asked, is not told to close.
pub proof fn answering_connections_stay(w0: LagWorld, w1: LagWorld, id: Seq<char>, now: Clock)
    requires
        lag_measured(w0, w1, id, now),
        w0.handles.contains_key(id),
        !w0.state.connections@.contains_key(id) || !w0.state.connections@[id].lag_pending
            || !w0.pings.contains_key(id),
    ensures
        w1.handles == w0.handles || handle_took(
            w0.handles[id],
            w1.handles[id],
            seq![untagged("PING"@, seq![ping_stamp(now)])],
        ),
{
}

/// A new day is marked in every channel, query, direct chat and server buffer, by one line at its end, and
/// nowhere else.
pub proof fn every_conversation_marks_the_day(
    before: AppState,
    after: AppState,
    text: Seq<char>,
    now_ms: i64,
    id: Seq<char>,
)
    requires
        before.buffers.ordered(),
        before.buffers@.contains_key(id),
        days_marked(before, after, day_buffers(before, before.buffers.keys()), text, now_ms),
    ensures
        after.buffers@.contains_key(id),
        ({
            let b = before.buffers@[id];
            let a = after.buffers@[id];
            if b.buffer_type == BufferType::Channel || b.buffer_type == BufferType::Query || b.buffer_type
                == BufferType::DccChat || b.buffer_type == BufferType::Server {
                &&& a.messages@.len() == b.messages@.len() + 1
                &&& a.messages@.take(b.messages@.len() as int) == b.messages@
                &&& a.messages@.last().text@ == text
                &&& opt_text(a.messages@.last().event_key) == Some("date_separator"@)
            } else {
                a == b
            }
        }),
{
    let ids = day_buffers(before, before.buffers.keys());
    lemma_day_buffers(before, before.buffers.keys(), id);
    lemma_days_marked(before, after, ids, text, now_ms, id);
    assert(before.buffers.keys().contains(id));
}

proof fn lemma_day_buffers(state: AppState, ids: Seq<Seq<char>>, id: Seq<char>)
    requires
        ids.no_duplicates(),
    ensures
        day_buffers(state, ids).no_duplicates(),
        day_buffers(state, ids).contains(id) <==> ids.contains(id) && marks_days(state.buffers@[id].buffer_type),
        forall|x: Seq<char>| #[trigger] day_buffers(state, ids).contains(x) ==> ids.contains(x),
    decreases ids.len(),
{
    if ids.len() > 0 {
        let rest = ids.drop_last();
        let last = ids.last();
        let init = day_buffers(state, rest);
        let all = day_buffers(state, ids);
        assert(rest.no_duplicates());
        lemma_day_buffers(state, rest, id);
        assert forall|x: Seq<char>| #[trigger] all.contains(x) implies ids.contains(x) && (x == last || init.contains(
            x,
        )) by {
            let k = all.index_of(x);
            if k < init.len() {
                assert(init[k] == x);
                assert(init.contains(x));
                assert(ids[rest.index_of(x)] == x);
            } else {
                assert(ids[ids.len() - 1] == x);
            }
        }
        assert(!rest.contains(last)) by {
            if rest.contains(last) {
                assert(ids[rest.index_of(last)] == ids[ids.len() - 1]);
            }
        }
        if marks_days(state.buffers@[last].buffer_type) {
            assert forall|a: int, b: int| 0 <= a < b < all.len() implies all[a] != all[b] by {
                if b == all.len() - 1 && all[a] == all[b] {
                    assert(init[a] == last);
                    assert(init.contains(last));
                }
            }
        }
        if ids.contains(id) && marks_days(state.buffers@[id].buffer_type) {
            let j = ids.index_of(id);
            if j < rest.len() {
                assert(rest[j] == id);
                assert(all[init.index_of(id)] == id);
            } else {
                assert(all[all.len() - 1] == id);
            }
        }
    }
}

proof fn lemma_days_marked(
    before: AppState,
    after: AppState,
    ids: Seq<Seq<char>>,
    text: Seq<char>,
    now_ms: i64,
    id: Seq<char>,
)
    requires
        days_marked(before, after, ids, text, now_ms),
        ids.no_duplicates(),
        before.buffers@.contains_key(id),
    ensures
        after.buffers@.contains_key(id),
        !ids.contains(id) ==> after.buffers@[id] == before.buffers@[id],
        ids.contains(id) ==> ({
            let b = before.buffers@[id];
            let a = after.buffers@[id];
            &&& a.messages@.len() == b.messages@.len() + 1
            &&& a.messages@.take(b.messages@.len() as int) == b.messages@
            &&& a.messages@.last().text@ == text
            &&& opt_text(a.messages@.last().event_key) == Some("date_separator"@)
        }),
    decreases ids.len(),
{
    if ids.len() > 0 {
        let rest = ids.drop_last();
        let last = ids.last();
        let middle = choose|middle: AppState|
            days_marked(before, middle, rest, text, now_ms) && #[trigger] day_marked(
                middle,
                after,
                last,
                text,
                now_ms,
            );
        assert(rest.no_duplicates());
        lemma_days_marked(before, middle, rest, text, now_ms, id);
        assert(ids[ids.len() - 1] == last);
        if rest.contains(id) {
            assert(ids[rest.index_of(id)] == id);
        }
        if ids.contains(id) && id != last {
            let j = ids.index_of(id);
            assert(rest[j] == id);
        }
        if id == last {
            if rest.contains(last) {
                assert(ids[rest.index_of(last)] == ids[ids.len() - 1]);
            }
            let n = middle.buffers@[id].messages@.len() as int;
            let a = after.buffers@[id].messages@;
            assert(a[n + 0] == a.last());
            assert(a.last()@ == event_v(
                id_after(middle.message_counter),
                now_ms,
                text,
                Some("date_separator"@),
            ));
        }
    }
}

proof fn lemma_since_filter(messages: Seq<Message>, cutoff: i64)
    ensures
        since(messages, cutoff) == messages.filter(|m: Message| m.at_ms >= cutoff),
    decreases messages.len(),
{
    reveal(Seq::filter);
    if messages.len() > 0 {
        lemma_since_filter(messages.drop_last(), cutoff);
    } else {
        assert(since(messages, cutoff) =~= messages.filter(|m: Message| m.at_ms >= cutoff));
    }
}

/// A purge of the mentions keeps those that are recent enough, in their order, and of too many the last.
pub proof fn purges_keep_recent_mentions(messages: Seq<Message>, cutoff: i64)
    ensures
        ({
            let recent = messages.filter(|m: Message| m.at_ms >= cutoff);
            let gone = if recent.len() > MENTIONS_MAX {
                recent.len() - MENTIONS_MAX
            } else {
                0
            };
            mentions_left(messages, cutoff) == recent.skip(gone)
        }),
{
    lemma_since_filter(messages, cutoff);
    let recent = messages.filter(|m: Message| m.at_ms >= cutoff);
    assert(recent.skip(0) =~= recent);
}

/// A request for history that has no answer after a minute and a half is given up, so that another may be
/// sent; a younger one goes on.
pub proof fn old_requests_are_given_up(before: Connection, after: Connection, now: u64, target: Seq<char>)
    requires
        requests_released(before, after, now),
        before.chathistory.in_flight@.contains_key(target),
    ensures
        after.chathistory.in_flight@.contains_key(target) <==> now < before.chathistory.in_flight@[target] + 90_000,
{
}

/// An open batch is closed by force only after a minute.
pub proof fn batches_stay_open_for_a_minute(
    t0: Map<Seq<char>, BatchTracker>,
    t1: Map<Seq<char>, BatchTracker>,
    conn: Seq<char>,
    now: u64,
    before: Seq<ExpiredV>,
    list: Seq<ExpiredV>,
    k: Seq<char>,
)
    requires
        overdue_step(t0, t1, conn, now, before, list),
        t0.contains_key(conn),
        t0[conn].open.ordered(),
        t0[conn].batches().contains_key(k),
        t0[conn].open@.contains_key(k),
    ensures
        ({
            let b = t0[conn].batches()[k];
            if now >= b.started_at + 60_000 {
                &&& list.contains(ExpiredV { conn, reference: k, batch: b })
                &&& !all_batches(t1)[conn].contains_key(k)
            } else {
                &&& all_batches(t1)[conn].contains_key(k)
                &&& all_batches(t1)[conn][k] == b
            }
        }),
{
    let open = t0[conn].batches();
    let keys = t0[conn].open.keys();
    let refs = overdue_refs(open, keys, now);
    assert(keys.contains(k));
    lemma_overdue(open, keys, now, k);
    if batch_overdue(open[k], now) {
        let i = refs.index_of(k);
        assert(batches_at(open, conn, refs)[i] == (ExpiredV { conn, reference: k, batch: open[k] }));
        assert(list[before.len() + i] == (ExpiredV { conn, reference: k, batch: open[k] }));
        lemma_closed_gone(open, refs, k);
    } else {
        lemma_closed_all(open, refs, k);
    }
}

proof fn lemma_overdue(open: Map<Seq<char>, BatchV>, keys: Seq<Seq<char>>, now: u64, k: Seq<char>)
    ensures
        overdue_refs(open, keys, now).contains(k) <==> keys.contains(k) && batch_overdue(open[k], now),
    decreases keys.len(),
{
    if keys.len() > 0 {
        let rest = keys.drop_last();
        let init = overdue_refs(open, rest, now);
        let all = overdue_refs(open, keys, now);
        lemma_overdue(open, rest, now, k);
        if all.contains(k) {
            let i = all.index_of(k);
            if i < init.len() {
                assert(init[i] == k);
                assert(keys[rest.index_of(k)] == k);
            } else {
                assert(keys[keys.len() - 1] == k);
            }
        }
        if keys.contains(k) && batch_overdue(open[k], now) {
            let j = keys.index_of(k);
            if j < rest.len() {
                assert(rest[j] == k);
                assert(all[init.index_of(k)] == k);
            } else {
                assert(all[all.len() - 1] == k);
            }
        }
    }
}

proof fn lemma_closed_gone(open: Map<Seq<char>, BatchV>, refs: Seq<Seq<char>>, k: Seq<char>)
    requires
        refs.contains(k),
    ensures
        !closed_all(open, refs).contains_key(k),
    decreases refs.len(),
{
    let rest = refs.drop_last();
    let i = refs.index_of(k);
    if i < rest.len() {
        assert(rest[i] == k);
        lemma_closed_gone(open, rest, k);
    }
}

/// The lag is the time from a ping to its answer: the answer that comes `d` milliseconds after a connection
/// was pinged shows a lag of `d` milliseconds, and it is waited for no longer.
pub proof fn lag_is_the_time_to_the_answer(
    w0: LagWorld,
    w1: LagWorld,
    after: AppState,
    id: Seq<char>,
    m: IrcMessageV,
    now: Clock,
    later: u64,
)
    requires
        lag_measured(w0, w1, id, now),
        w0.state.connections@.contains_key(id),
        w0.state.connections@[id].status == ConnectionStatus::Connected,
        !w0.pings.contains_key(id) || (now.mono_ms >= w0.pings[id].sent + PING_MS
            && !w0.state.connections@[id].lag_pending),
        m.command.verb == "PONG"@,
        ponged(w1.state, after, w1.pings, id, m, later),
        later >= now.mono_ms,
    ensures
        after.connections@[id].lag_ms == Some((later - now.mono_ms) as u64),
        !after.connections@[id].lag_pending,
        handle_took(w0.handles[id], w1.handles[id], seq![untagged("PING"@, seq![ping_stamp(now)])]),
{
}

proof fn lemma_split_in(
    before: AppState,
    after: AppState,
    buffers: Seq<Seq<char>>,
    text: Seq<char>,
    now_ms: i64,
    id: Seq<char>,
)
    requires
        split_reported_in(before, after, buffers, text, now_ms),
        before.buffers@.contains_key(id),
    ensures
        after.buffers@.contains_key(id),
        before.buffers@[id].messages@.is_prefix_of(after.buffers@[id].messages@),
        !buffers.contains(id) ==> after.buffers@[id] == before.buffers@[id],
        buffers.contains(id) ==> after.buffers@[id].messages@.len() > before.buffers@[id].messages@.len()
            && after.buffers@[id].messages@.last().text@ == text
            && opt_text(after.buffers@[id].messages@.last().event_key) == Some("netsplit"@),
    decreases buffers.len(),
{
    if buffers.len() > 0 {
        let rest = buffers.drop_last();
        let last = buffers.last();
        let middle = choose|middle: AppState|
            split_reported_in(before, middle, rest, text, now_ms) && #[trigger] split_reported(
                middle,
                after,
                last,
                text,
                now_ms,
            );
        lemma_split_in(before, middle, rest, text, now_ms, id);
        assert(buffers[buffers.len() - 1] == last);
        if rest.contains(id) {
            assert(buffers[rest.index_of(id)] == id);
        }
        if buffers.contains(id) && id != last {
            assert(rest[buffers.index_of(id)] == id);
        }
        if id == last {
            let m = middle.buffers@[id].messages@;
            let a = after.buffers@[id].messages@;
            let n = m.len() as int;
            assert(a[n + 0] == a.last());
            assert(a.last()@ == keyed_v(id_after(middle.message_counter), now_ms, text, "netsplit"@));
            assert(a.take(n) == m);
            assert(before.buffers@[id].messages@ =~= a.subrange(0, before.buffers@[id].messages@.len() as int))
                by {
                assert forall|j: int| 0 <= j < before.buffers@[id].messages@.len() implies
                    before.buffers@[id].messages@[j] == a[j] by {
                    assert(m[j] == a.take(n)[j]);
                }
            }
        }
    }
}

/// Splits are told where they matter: every report stands in each open buffer that it names, and no line that
/// stood there is lost; a buffer that no report names stays as it is.
pub proof fn splits_are_told(
    before: AppState,
    after: AppState,
    messages: Seq<SplitMessage>,
    now_ms: i64,
    id: Seq<char>,
    i: int,
)
    requires
        splits_reported(before, after, messages, now_ms),
        before.buffers@.contains_key(id),
        0 <= i < messages.len(),
    ensures
        after.buffers@.contains_key(id),
        before.buffers@[id].messages@.is_prefix_of(after.buffers@[id].messages@),
        texts(messages[i].buffer_ids@).contains(id) ==> exists|k: int|
            before.buffers@[id].messages@.len() <= k < after.buffers@[id].messages@.len()
                && (#[trigger] after.buffers@[id].messages@[k]).text@ == messages[i].text@,
        (forall|j: int|
            0 <= j < messages.len() ==> !texts((#[trigger] messages[j]).buffer_ids@).contains(id))
            ==> after.buffers@[id] == before.buffers@[id],
{
    lemma_splits(before, after, messages, now_ms, id, i);
}

proof fn lemma_splits(
    before: AppState,
    after: AppState,
    messages: Seq<SplitMessage>,
    now_ms: i64,
    id: Seq<char>,
    i: int,
)
    requires
        splits_reported(before, after, messages, now_ms),
        before.buffers@.contains_key(id),
    ensures
        after.buffers@.contains_key(id),
        before.buffers@[id].messages@.is_prefix_of(after.buffers@[id].messages@),
        0 <= i < messages.len() && texts(messages[i].buffer_ids@).contains(id) ==> exists|k: int|
            before.buffers@[id].messages@.len() <= k < after.buffers@[id].messages@.len()
                && (#[trigger] after.buffers@[id].messages@[k]).text@ == messages[i].text@,
        (forall|j: int|
            0 <= j < messages.len() ==> !texts((#[trigger] messages[j]).buffer_ids@).contains(id))
            ==> after.buffers@[id] == before.buffers@[id],
    decreases messages.len(),
{
    if messages.len() > 0 {
        let rest = messages.drop_last();
        let last = messages.last();
        let ids = texts(last.buffer_ids@);
        let middle = choose|middle: AppState|
            splits_reported(before, middle, rest, now_ms) && #[trigger] split_reported_in(
                middle,
                after,
                texts(messages.last().buffer_ids@),
                messages.last().text@,
                now_ms,
            );
        lemma_splits(before, middle, rest, now_ms, id, i);
        lemma_split_in(middle, after, ids, last.text@, now_ms, id);
        let b = before.buffers@[id].messages@;
        let m = middle.buffers@[id].messages@;
        let a = after.buffers@[id].messages@;
        assert(b =~= a.subrange(0, b.len() as int)) by {
            assert forall|j: int| 0 <= j < b.len() implies b[j] == a[j] by {
                assert(b[j] == m.subrange(0, b.len() as int)[j]);
                assert(m[j] == a.subrange(0, m.len() as int)[j]);
            }
        }
        assert(messages[messages.len() - 1] == last);
        if 0 <= i < messages.len() && texts(messages[i].buffer_ids@).contains(id) {
            if i < rest.len() {
                assert(rest[i] == messages[i]);
                let k = choose|k: int| b.len() <= k < m.len() && (#[trigger] m[k]).text@ == rest[i].text@;
                assert(a[k] == a.subrange(0, m.len() as int)[k]);
            } else {
                assert(a[a.len() - 1] == a.last());
            }
        }
        if forall|j: int| 0 <= j < messages.len() ==> !texts((#[trigger] messages[j]).buffer_ids@).contains(id) {
            assert forall|j: int| 0 <= j < rest.len() implies !texts((#[trigger] rest[j]).buffer_ids@).contains(
                id,
            ) by {
                assert(rest[j] == messages[j]);
            }
        }
    }
}

proof fn lemma_overdue_elsewhere(
    t0: Map<Seq<char>, BatchTracker>,
    t1: Map<Seq<char>, BatchTracker>,
    conns: Seq<Seq<char>>,
    now: u64,
    list: Seq<ExpiredV>,
    conn: Seq<char>,
)
    requires
        overdue_taken(t0, t1, conns, now, list),
        t0.contains_key(conn),
    ensures
        t1.contains_key(conn),
        !conns.contains(conn) ==> t1[conn].batches() == t0[conn].batches(),
    decreases conns.len(),
{
    if conns.len() == 0 {
        assert(all_batches(t1).contains_key(conn) == all_batches(t0).contains_key(conn));
        assert(all_batches(t1)[conn] == all_batches(t0)[conn]);
    } else {
        let (tm, before) = choose|tm: Map<Seq<char>, BatchTracker>, before: Seq<ExpiredV>|
            {
                &&& overdue_taken(t0, tm, conns.drop_last(), now, before)
                &&& #[trigger] overdue_step(tm, t1, conns.last(), now, before, list)
            };
        lemma_overdue_elsewhere(t0, tm, conns.drop_last(), now, before, conn);
        assert(all_batches(tm).contains_key(conn));
        assert(all_batches(t1).contains_key(conn));
        if !conns.contains(conn) {
            assert(conns[conns.len() - 1] != conn);
            assert(!conns.drop_last().contains(conn)) by {
                if conns.drop_last().contains(conn) {
                    assert(conns[conns.drop_last().index_of(conn)] == conn);
                }
            }
            assert(all_batches(t1)[conn] == all_batches(tm)[conn]);
        }
    }
}

/// Batches that a server fails to close are closed after a minute, on every connection: each is taken out with
/// all that it holds, and those that are younger stay as they are.
pub proof fn late_batches_are_closed(
    t0: Map<Seq<char>, BatchTracker>,
    t1: Map<Seq<char>, BatchTracker>,
    conns: Seq<Seq<char>>,
    now: u64,
    list: Seq<ExpiredV>,
    conn: Seq<char>,
    k: Seq<char>,
)
    requires
        overdue_taken(t0, t1, conns, now, list),
        conns.no_duplicates(),
        conns.contains(conn),
        t0.contains_key(conn),
        t0[conn].batches().contains_key(k),
    ensures
        t1.contains_key(conn),
        ({
            let b = t0[conn].batches()[k];
            if now >= b.started_at + 60_000 {
                &&& list.contains(ExpiredV { conn, reference: k, batch: b })
                &&& !t1[conn].batches().contains_key(k)
            } else {
                &&& t1[conn].batches().contains_key(k)
                &&& t1[conn].batches()[k] == b
            }
        }),
    decreases conns.len(),
{
    let rest = conns.drop_last();
    let last = conns.last();
    let (tm, before) = choose|tm: Map<Seq<char>, BatchTracker>, before: Seq<ExpiredV>|
        {
            &&& overdue_taken(t0, tm, conns.drop_last(), now, before)
            &&& #[trigger] overdue_step(tm, t1, conns.last(), now, before, list)
        };
    lemma_overdue_elsewhere(t0, t1, conns, now, list, conn);
    lemma_overdue_elsewhere(t0, tm, rest, now, before, conn);
    assert(rest.no_duplicates());
    if conn == last {
        assert(!rest.contains(conn)) by {
            if rest.contains(conn) {
                assert(conns[rest.index_of(conn)] == conns[conns.len() - 1]);
            }
        }
        assert(tm[conn].open@.contains_key(k)) by {
            assert(tm[conn].batches().contains_key(k));
        }
        batches_stay_open_for_a_minute(tm, t1, conn, now, before, list, k);
        assert(all_batches(t1)[conn] == t1[conn].batches());
    } else {
        assert(rest[conns.index_of(conn)] == conn);
        late_batches_are_closed(t0, tm, rest, now, before, conn, k);
        assert(all_batches(t1)[conn] == all_batches(tm)[conn]);
        let e = ExpiredV { conn, reference: k, batch: t0[conn].batches()[k] };
        if before.contains(e) {
            assert(list[before.index_of(e)] == e);
        }
    }
}

} // verus!
