//! What completed and expired batches lead to.
use vstd::prelude::*;

use crate::app::Clock;
use crate::batch::{
    all_taken, build_multiline_message, extended, folding_loses_nothing, is_supports_whole, live_kind,
    message_views, multiline_outcome, numbered_views, plain, supports_whole, tag_value, BatchInfo,
    BatchTracker, BatchV, IrcMessage, IrcMessageV, MultilineOutcome, MultilineOutcomeV, Numbered,
    NumberedV,
};
use crate::collections::StrMap;
use crate::search_results::{
    answer_received, context_of, context_received, offered, receive_search_context, receive_search_results, Answer,
};
use crate::server_search::{ContextMatch, Searches};
use crate::state::AppState;
use crate::text::same;

verus! {

broadcast use vstd::string::group_string_axioms;

/// The messages that a live batch hands on: one for a message of several lines; a broken one is told
/// as it came where the server closed it, and forgotten where it did not.
pub open spec fn handed_on(b: BatchV, clean_end: bool) -> Seq<NumberedV> {
    if b.kind != "draft/multiline"@ {
        b.messages
    } else {
        match multiline_outcome(b) {
            MultilineOutcomeV::Message(m) => seq![
                NumberedV { order: b.messages[0].order, message: m },
            ],
            MultilineOutcomeV::Replay => if clean_end {
                b.messages
            } else {
                Seq::empty()
            },
            MultilineOutcomeV::Empty => Seq::empty(),
        }
    }
}

/// The messages that a live batch hands on.
fn live_batch_messages(batch: BatchInfo, clean_end: bool) -> (r: Vec<Numbered>)
    ensures
        numbered_views(r@) == handed_on(batch@, clean_end),
{
    if !same(batch.kind.as_str(), "draft/multiline") {
        return batch.messages;
    }
    let mut r: Vec<Numbered> = Vec::new();
    match build_multiline_message(&batch) {
        MultilineOutcome::Message(message) => {
            let ghost mv = message@;
            assert(batch@.messages.len() == batch.messages@.len());
            let order: u64 = batch.messages[0].order;
            assert(batch@.messages[0] == batch.messages@[0]@);
            r.push(Numbered { order, message });
            assert(numbered_views(r@) =~= seq![NumberedV { order, message: mv }]);
        },
        MultilineOutcome::Replay => {
            if clean_end {
                return batch.messages;
            }
            assert(numbered_views(r@) =~= Seq::<NumberedV>::empty());
        },
        MultilineOutcome::Empty => {
            assert(numbered_views(r@) =~= Seq::<NumberedV>::empty());
        },
    }
    r
}

/// What a completed batch leads to.
#[derive(Debug)]
pub enum BatchAction {
    /// The answer to a search was looked at; this is what it shows.
    Searched(Answer),
    /// Conversations that the server knows.
    Targets(BatchInfo),
    /// History, or a split.
    History(BatchInfo),
    /// What the server supports, to be taken up as a whole.
    Isupport(BatchInfo),
    /// Nothing: what the server supports did not arrive as a whole.
    Dropped,
    /// Messages to handle one after the other.
    Live(Vec<IrcMessage>),
}

/// The model of a [`BatchAction`].
pub enum BatchActionV {
    Searched,
    Targets(BatchV),
    History(BatchV),
    Isupport(BatchV),
    Dropped,
    Live(Seq<IrcMessageV>),
}

impl View for BatchAction {
    type V = BatchActionV;

    open spec fn view(&self) -> BatchActionV {
        match self {
            BatchAction::Searched(_) => BatchActionV::Searched,
            BatchAction::Targets(b) => BatchActionV::Targets(b@),
            BatchAction::History(b) => BatchActionV::History(b@),
            BatchAction::Isupport(b) => BatchActionV::Isupport(b@),
            BatchAction::Dropped => BatchActionV::Dropped,
            BatchAction::Live(m) => BatchActionV::Live(message_views(m@)),
        }
    }
}

/// What a completed batch leads to, by its kind. `context` tells whether a search for what stands
/// around a message took it.
pub open spec fn batch_action(b: BatchV, clean_end: bool, context: bool) -> BatchActionV {
    if b.kind == "chathistory"@ && context {
        BatchActionV::Searched
    } else if b.kind == "soju.im/search"@ {
        BatchActionV::Searched
    } else if b.kind == "draft/chathistory-targets"@ && clean_end {
        BatchActionV::Targets(b)
    } else if b.kind == "draft/isupport"@ {
        if supports_whole(b, clean_end) {
            BatchActionV::Isupport(b)
        } else {
            BatchActionV::Dropped
        }
    } else if !live_kind(b.kind) {
        BatchActionV::History(b)
    } else if b.kind == "draft/multiline"@ {
        match multiline_outcome(b) {
            MultilineOutcomeV::Message(m) => BatchActionV::Live(seq![m]),
            MultilineOutcomeV::Replay => BatchActionV::Live(plain(b.messages)),
            MultilineOutcomeV::Empty => BatchActionV::Live(Seq::empty()),
        }
    } else {
        BatchActionV::Live(plain(b.messages))
    }
}

/// The messages without their places.
fn unnumbered(list: Vec<Numbered>) -> (r: Vec<IrcMessage>)
    ensures
        message_views(r@) == plain(numbered_views(list@)),
{
    let ghost all = numbered_views(list@);
    let ghost n = list@.len();
    let mut rest = list;
    let mut r: Vec<IrcMessage> = Vec::new();
    assert(message_views(r@) =~= plain(all).take(0));
    while rest.len() > 0
        invariant
            n == all.len(),
            r@.len() + rest@.len() == n,
            forall|k: int| 0 <= k < rest@.len() ==> (#[trigger] rest@[k])@ == all[r@.len() + k],
            message_views(r@) == plain(all).take(r@.len() as int),
        decreases rest@.len(),
    {
        let ghost was = message_views(r@);
        let ghost left = rest@;
        let x = rest.remove(0);
        proof {
            assert(x@ == left[0]@);
            assert forall|k: int| 0 <= k < rest@.len() implies (#[trigger] rest@[k])@ == all[r@.len() + 1
                + k] by {
                assert(rest@[k] == left[k + 1]);
            }
        }
        let ghost m = x.message@;
        assert(m == plain(all)[r@.len() as int]);
        r.push(x.message);
        assert(message_views(r@) =~= was.push(m));
        assert(message_views(r@) =~= plain(all).take(r@.len() as int));
    }
    assert(plain(all).take(n as int) =~= plain(all));
    r
}

/// What a completed batch of a connection leads to: history is offered to the search of the connection
/// first, results are the search's, and every other batch leads to its action alone.
pub open spec fn batch_dispatched(
    s0: AppState,
    s1: AppState,
    q0: Searches,
    q1: Searches,
    id: Seq<char>,
    b: BatchV,
    clean_end: bool,
    channel_types: Seq<char>,
    now: Clock,
    r: BatchAction,
) -> bool {
    &&& r@ == batch_action(b, clean_end, context_of(q0, s0, id, b) != ContextMatch::Other)
    &&& match r {
        BatchAction::Searched(answer) => if b.kind == "chathistory"@ {
            context_received(
                s0,
                s1,
                q0,
                q1,
                b,
                offered(q0, s0, id, b),
                id,
                clean_end,
                channel_types,
                now,
                true,
                answer,
            )
        } else {
            answer_received(s0, s1, q0, q1, id, b, clean_end, channel_types, now, answer)
        },
        _ => s1 == s0 && q1 == q0,
    }
}

/// Dispatches a completed batch of a connection. `channel_types` is what the names of channels begin with
/// there.
pub fn dispatch_completed_batch(
    searches: &mut Searches,
    state: &mut AppState,
    conn: &str,
    batch: BatchInfo,
    clean_end: bool,
    channel_types: &str,
    now: Clock,
) -> (r: BatchAction)
    ensures
        batch_dispatched(
            *old(state),
            *final(state),
            *old(searches),
            *final(searches),
            conn@,
            batch@,
            clean_end,
            channel_types@,
            now,
            r,
        ),
{
    let ghost b0 = batch@;
    let mut batch = batch;
    if same(batch.kind.as_str(), "chathistory") {
        let (taken, answer) = receive_search_context(
            searches,
            state,
            conn,
            &mut batch,
            clean_end,
            channel_types,
            now,
        );
        if taken {
            return BatchAction::Searched(answer);
        }
    } else if same(batch.kind.as_str(), "soju.im/search") {
        let answer = receive_search_results(
            searches,
            state,
            conn,
            &batch,
            clean_end,
            channel_types,
            now,
        );
        return BatchAction::Searched(answer);
    }
    assert(batch@ == b0);
    proof {
        reveal_strlit("soju.im/search");
        reveal_strlit("chathistory");
        assert("soju.im/search"@.len() != "chathistory"@.len());
    }
    classify(batch, clean_end)
}

/// What a completed batch that no search took leads to.
fn classify(batch: BatchInfo, clean_end: bool) -> (r: BatchAction)
    requires
        batch.kind@ != "soju.im/search"@,
    ensures
        r !is Searched,
        r@ == batch_action(batch@, clean_end, false),
{
    let kind = batch.kind.as_str();
    if same(kind, "draft/chathistory-targets") && clean_end {
        return BatchAction::Targets(batch);
    }
    if same(kind, "draft/isupport") {
        if is_supports_whole(&batch, clean_end) {
            return BatchAction::Isupport(batch);
        }
        return BatchAction::Dropped;
    }
    if !batch.is_live() {
        return BatchAction::History(batch);
    }
    if same(kind, "draft/multiline") {
        match build_multiline_message(&batch) {
            MultilineOutcome::Message(message) => {
                let ghost mv = message@;
                let mut one: Vec<IrcMessage> = Vec::new();
                one.push(message);
                assert(message_views(one@) =~= seq![mv]);
                return BatchAction::Live(one);
            },
            MultilineOutcome::Replay => {},
            MultilineOutcome::Empty => {
                let none: Vec<IrcMessage> = Vec::new();
                assert(message_views(none@) =~= Seq::<IrcMessageV>::empty());
                return BatchAction::Live(none);
            },
        }
    }
    BatchAction::Live(unnumbered(batch.messages))
}

/// The models of the open batches of every connection.
pub open spec fn all_batches(trackers: Map<Seq<char>, BatchTracker>) -> Map<
    Seq<char>,
    Map<Seq<char>, BatchV>,
> {
    trackers.map_values(|t: BatchTracker| t.batches())
}

/// The place of the next message of every connection.
pub open spec fn orders(trackers: Map<Seq<char>, BatchTracker>) -> Map<Seq<char>, u64> {
    trackers.map_values(|t: BatchTracker| t.next_order)
}

/// The open batches after a nested one was handed to the one around it; without that one it is lost.
pub open spec fn folded_into(
    open: Map<Seq<char>, Map<Seq<char>, BatchV>>,
    conn: Seq<char>,
    parent: Seq<char>,
    items: Seq<NumberedV>,
    dropped: u64,
) -> Map<Seq<char>, Map<Seq<char>, BatchV>> {
    if open.contains_key(conn) && open[conn].contains_key(parent) {
        open.insert(conn, open[conn].insert(parent, extended(open[conn][parent], items, dropped)))
    } else {
        open
    }
}

/// Hands a nested batch to the one around it.
fn fold_into(
    trackers: &mut StrMap<BatchTracker>,
    conn: &str,
    parent: &str,
    items: Vec<Numbered>,
    dropped: u64,
)
    ensures
        all_batches(final(trackers)@) == folded_into(
            all_batches(old(trackers)@),
            conn@,
            parent@,
            numbered_views(items@),
            dropped,
        ),
        orders(final(trackers)@) == orders(old(trackers)@),
{
    let ghost before = all_batches(trackers@);
    let ghost places = orders(trackers@);
    let ghost iv = numbered_views(items@);
    match trackers.get_mut(conn) {
        None => {},
        Some(t) => {
            let ghost was = t.batches();
            let _found = t.fold_messages(parent, items, dropped);
            assert(before[conn@] == was);
        },
    }
    assert(all_batches(trackers@) =~= folded_into(before, conn@, parent@, iv, dropped));
    assert(orders(trackers@) =~= places);
}

/// A batch that the server closed: a live one inside another waits for that one, and every other leads
/// to its action.
pub fn receive_completed_batch(
    trackers: &mut StrMap<BatchTracker>,
    searches: &mut Searches,
    state: &mut AppState,
    conn: &str,
    batch: BatchInfo,
    channel_types: &str,
    now: Clock,
) -> (r: Option<BatchAction>)
    ensures
        match batch.parent() {
            Some(parent) if live_kind(batch.kind@) => {
                &&& r is None
                &&& *final(state) == *old(state)
                &&& *final(searches) == *old(searches)
                &&& all_batches(final(trackers)@) == folded_into(
                    all_batches(old(trackers)@),
                    conn@,
                    parent,
                    handed_on(batch@, true),
                    batch.dropped,
                )
            },
            _ => {
                &&& *final(trackers) == *old(trackers)
                &&& r matches Some(action) && batch_dispatched(
                    *old(state),
                    *final(state),
                    *old(searches),
                    *final(searches),
                    conn@,
                    batch@,
                    true,
                    channel_types@,
                    now,
                    action,
                )
            },
        },
        orders(final(trackers)@) == orders(old(trackers)@),
{
    if batch.is_live() {
        let parent = match batch.parent_ref() {
            Some(parent) => Some(parent.clone()),
            None => None,
        };
        match parent {
            Some(parent) => {
                let dropped: u64 = batch.dropped;
                let items = live_batch_messages(batch, true);
                fold_into(trackers, conn, parent.as_str(), items, dropped);
                return None;
            },
            None => {},
        }
    }
    Some(dispatch_completed_batch(searches, state, conn, batch, true, channel_types, now))
}

/// A batch that the server did not close in time.
#[derive(Debug)]
pub struct Expired {
    pub conn: String,
    pub reference: String,
    pub batch: BatchInfo,
}

/// The model of an [`Expired`].
#[verifier::ext_equal]
pub struct ExpiredV {
    pub conn: Seq<char>,
    pub reference: Seq<char>,
    pub batch: BatchV,
}

impl View for Expired {
    type V = ExpiredV;

    open spec fn view(&self) -> ExpiredV {
        ExpiredV { conn: self.conn@, reference: self.reference@, batch: self.batch@ }
    }
}

/// The models of a list of expired batches.
pub open spec fn expired_views(v: Seq<Expired>) -> Seq<ExpiredV> {
    v.map_values(|e: Expired| e@)
}

/// The batch that an expired live one is nested in.
pub open spec fn live_parent(e: ExpiredV) -> Option<Seq<char>> {
    if live_kind(e.batch.kind) {
        tag_value(e.batch.opener, "batch"@)
    } else {
        None
    }
}

/// A batch of the list is nested in this one.
pub open spec fn has_child(list: Seq<ExpiredV>, e: ExpiredV) -> bool {
    exists|j: int|
        0 <= j < list.len() && (#[trigger] list[j]).conn == e.conn && live_parent(list[j]) == Some(
            e.reference,
        )
}

/// A nested batch with none inside it: its turn to be folded.
pub open spec fn leaf(list: Seq<ExpiredV>, i: int) -> bool {
    live_parent(list[i]) is Some && !has_child(list, list[i])
}

/// The first leaf from `i` on, or the length of the list.
pub open spec fn leaf_from(list: Seq<ExpiredV>, i: int) -> int
    decreases list.len() - i,
{
    if i >= list.len() || i < 0 {
        list.len() as int
    } else if leaf(list, i) {
        i
    } else {
        leaf_from(list, i + 1)
    }
}

/// The first batch of a connection under a reference from `i` on, or the length of the list.
pub open spec fn match_from(list: Seq<ExpiredV>, conn: Seq<char>, reference: Seq<char>, i: int) -> int
    decreases list.len() - i,
{
    if i >= list.len() || i < 0 {
        list.len() as int
    } else if list[i].conn == conn && list[i].reference == reference {
        i
    } else {
        match_from(list, conn, reference, i + 1)
    }
}

/// The list after its leaf at `i` was folded.
pub open spec fn list_folded(list: Seq<ExpiredV>, i: int) -> Seq<ExpiredV> {
    let e = list[i];
    let rest = list.remove(i);
    let k = match_from(rest, e.conn, live_parent(e)->0, 0);
    if 0 <= k < rest.len() {
        rest.update(
            k,
            ExpiredV {
                batch: extended(rest[k].batch, handed_on(e.batch, false), e.batch.dropped),
                ..rest[k]
            },
        )
    } else {
        rest
    }
}

/// The open batches after the leaf at `i` was folded: they take it where the list holds no batch
/// around it.
pub open spec fn open_folded(
    open: Map<Seq<char>, Map<Seq<char>, BatchV>>,
    list: Seq<ExpiredV>,
    i: int,
) -> Map<Seq<char>, Map<Seq<char>, BatchV>> {
    let e = list[i];
    let rest = list.remove(i);
    let k = match_from(rest, e.conn, live_parent(e)->0, 0);
    if 0 <= k < rest.len() {
        open
    } else {
        folded_into(open, e.conn, live_parent(e)->0, handed_on(e.batch, false), e.batch.dropped)
    }
}

/// The open batches and the list after everything nested was folded, from the inside out.
pub open spec fn all_folded(
    open: Map<Seq<char>, Map<Seq<char>, BatchV>>,
    list: Seq<ExpiredV>,
) -> (Map<Seq<char>, Map<Seq<char>, BatchV>>, Seq<ExpiredV>)
    decreases list.len(),
{
    let i = leaf_from(list, 0);
    if 0 <= i < list.len() {
        all_folded(open_folded(open, list, i), list_folded(list, i))
    } else {
        (open, list)
    }
}

/// What is done for a connection.
#[derive(Debug)]
pub struct Outcome {
    pub conn: String,
    pub action: BatchAction,
}

/// The batches that are left are dispatched one after the other; those that are nested in one another are
/// forgotten.
pub open spec fn all_dispatched(
    s0: AppState,
    s1: AppState,
    q0: Searches,
    q1: Searches,
    list: Seq<ExpiredV>,
    now: Clock,
    r: Seq<Outcome>,
) -> bool
    decreases list.len(),
{
    if list.len() == 0 {
        s1 == s0 && q1 == q0 && r.len() == 0
    } else {
        let e = list.last();
        if live_parent(e) is Some {
            all_dispatched(s0, s1, q0, q1, list.drop_last(), now, r)
        } else {
            &&& r.len() > 0
            &&& r.last().conn@ == e.conn
            &&& exists|sm: AppState, qm: Searches|
                {
                    &&& all_dispatched(s0, sm, q0, qm, list.drop_last(), now, r.drop_last())
                    &&& #[trigger] batch_dispatched(
                        sm,
                        s1,
                        qm,
                        q1,
                        e.conn,
                        e.batch,
                        false,
                        Seq::empty(),
                        now,
                        r.last().action,
                    )
                }
        }
    }
}

/// The batch that an expired live one is nested in.
fn parent_of(e: &Expired) -> (r: Option<String>)
    ensures
        crate::text::opt_text(r) == live_parent(e@),
{
    if !e.batch.is_live() {
        return None;
    }
    match e.batch.parent_ref() {
        Some(parent) => Some(parent.clone()),
        None => None,
    }
}

/// Whether a batch of the list is nested in the one at `i`.
fn child_of(list: &Vec<Expired>, i: usize) -> (r: bool)
    requires
        i < list@.len(),
    ensures
        r == has_child(expired_views(list@), expired_views(list@)[i as int]),
{
    let ghost all = expired_views(list@);
    let mut j: usize = 0;
    while j < list.len()
        invariant
            i < list@.len(),
            j <= list@.len(),
            all == expired_views(list@),
            forall|k: int|
                0 <= k < j ==> !((#[trigger] all[k]).conn == all[i as int].conn && live_parent(all[k])
                    == Some(all[i as int].reference)),
        decreases list@.len() - j,
    {
        assert(all[j as int] == list@[j as int]@);
        assert(all[i as int] == list@[i as int]@);
        let nested = match parent_of(&list[j]) {
            Some(parent) => same(parent.as_str(), list[i].reference.as_str()),
            None => false,
        };
        if nested && same(list[j].conn.as_str(), list[i].conn.as_str()) {
            return true;
        }
        j = j + 1;
    }
    false
}

/// The first leaf, or the length of the list.
fn first_leaf(list: &Vec<Expired>) -> (r: usize)
    ensures
        r == leaf_from(expired_views(list@), 0),
        r <= list@.len(),
{
    let ghost all = expired_views(list@);
    let mut i: usize = 0;
    while i < list.len()
        invariant
            i <= list@.len(),
            all == expired_views(list@),
            leaf_from(all, 0) == leaf_from(all, i as int),
        decreases list@.len() - i,
    {
        assert(all[i as int] == list@[i as int]@);
        if parent_of(&list[i]).is_some() && !child_of(list, i) {
            return i;
        }
        i = i + 1;
    }
    i
}

/// The first batch of a connection under a reference, or the length of the list.
fn first_match(list: &Vec<Expired>, conn: &str, reference: &str) -> (r: usize)
    ensures
        r == match_from(expired_views(list@), conn@, reference@, 0),
        r <= list@.len(),
{
    let ghost all = expired_views(list@);
    let mut i: usize = 0;
    while i < list.len()
        invariant
            i <= list@.len(),
            all == expired_views(list@),
            match_from(all, conn@, reference@, 0) == match_from(all, conn@, reference@, i as int),
        decreases list@.len() - i,
    {
        assert(all[i as int] == list@[i as int]@);
        if same(list[i].conn.as_str(), conn) && same(list[i].reference.as_str(), reference) {
            return i;
        }
        i = i + 1;
    }
    i
}

/// Folds the leaf at `i`.
fn fold_leaf(trackers: &mut StrMap<BatchTracker>, list: &mut Vec<Expired>, i: usize)
    requires
        i < old(list)@.len(),
        live_parent(expired_views(old(list)@)[i as int]) is Some,
    ensures
        expired_views(final(list)@) == list_folded(expired_views(old(list)@), i as int),
        all_batches(final(trackers)@) == open_folded(
            all_batches(old(trackers)@),
            expired_views(old(list)@),
            i as int,
        ),
        final(list)@.len() == old(list)@.len() - 1,
        orders(final(trackers)@) == orders(old(trackers)@),
{
    let ghost all = expired_views(list@);
    let ghost open = all_batches(trackers@);
    let Expired { conn, reference, batch } = list.remove(i);
    let ghost rest = expired_views(list@);
    assert(rest =~= all.remove(i as int));
    let ghost e = all[i as int];
    assert(e.batch == batch@ && e.conn == conn@);
    let parent = match batch.parent_ref() {
        Some(parent) => parent.clone(),
        None => String::new(),
    };
    assert(live_parent(e) == Some(parent@));
    let dropped: u64 = batch.dropped;
    let items = live_batch_messages(batch, false);
    let ghost iv = numbered_views(items@);
    let k: usize = first_match(list, conn.as_str(), parent.as_str());
    if k < list.len() {
        let ghost l = list@;
        list[k].batch.extend_messages(items, dropped);
        proof {
            assert(l[k as int]@ == rest[k as int]);
            assert(list@[k as int]@ =~= (ExpiredV {
                batch: extended(rest[k as int].batch, iv, dropped),
                ..rest[k as int]
            }));
            assert forall|j: int| 0 <= j < list@.len() && j != k implies expired_views(list@)[j]
                == rest[j] by {
                assert(list@[j] == l[j]);
                assert(rest[j] == l[j]@);
            }
            assert(expired_views(list@) =~= list_folded(all, i as int));
        }
    } else {
        fold_into(trackers, conn.as_str(), parent.as_str(), items, dropped);
    }
}

/// Handles batches that the server did not close in time: nested live ones are folded into the ones
/// around them, from the inside out, and what is left is dispatched. Nothing of an answer that was not
/// closed is read, so that it does not matter what the names of channels begin with.
pub fn dispatch_expired_batch_set(
    trackers: &mut StrMap<BatchTracker>,
    searches: &mut Searches,
    state: &mut AppState,
    batches: Vec<Expired>,
    now: Clock,
) -> (r: Vec<Outcome>)
    ensures
        ({
            let folded = all_folded(all_batches(old(trackers)@), expired_views(batches@));
            &&& all_batches(final(trackers)@) == folded.0
            &&& all_dispatched(
                *old(state),
                *final(state),
                *old(searches),
                *final(searches),
                folded.1,
                now,
                r@,
            )
        }),
        orders(final(trackers)@) == orders(old(trackers)@),
{
    let ghost open0 = all_batches(trackers@);
    let ghost list0 = expired_views(batches@);
    let mut list = batches;
    let mut i: usize = first_leaf(&list);
    while i < list.len()
        invariant
            i <= list@.len(),
            i == leaf_from(expired_views(list@), 0),
            all_folded(open0, list0) == all_folded(all_batches(trackers@), expired_views(list@)),
            orders(trackers@) == orders(old(trackers)@),
            *state == *old(state),
            *searches == *old(searches),
        decreases list@.len(),
    {
        proof {
            lemma_leaf_from(expired_views(list@), 0);
        }
        fold_leaf(trackers, &mut list, i);
        i = first_leaf(&list);
    }
    let ghost left = expired_views(list@);
    assert(left.len() == list@.len());
    let mut r: Vec<Outcome> = Vec::new();
    let mut rest = list;
    let ghost mut n: int = 0;
    assert(left.take(0) =~= Seq::<ExpiredV>::empty());
    assert(left.skip(0) =~= left);
    proof {
        reveal_strlit("");
        assert(""@ =~= Seq::<char>::empty());
    }
    while rest.len() > 0
        invariant
            0 <= n <= left.len(),
            n + rest@.len() == left.len(),
            forall|k: int| 0 <= k < rest@.len() ==> (#[trigger] rest@[k])@ == left[n + k],
            ""@ == Seq::<char>::empty(),
            all_dispatched(
                *old(state),
                *state,
                *old(searches),
                *searches,
                left.take(n),
                now,
                r@,
            ),
        decreases rest@.len(),
    {
        let ghost were = rest@;
        let e = rest.remove(0);
        let ghost ev = e@;
        proof {
            assert(ev == were[0]@);
            assert forall|k: int| 0 <= k < rest@.len() implies (#[trigger] rest@[k])@ == left[n + 1 + k] by {
                assert(rest@[k] == were[k + 1]);
            }
            assert(left.take(n + 1).drop_last() =~= left.take(n));
            assert(left.take(n + 1).last() == ev);
            n = n + 1;
        }
        if parent_of(&e).is_none() {
            let ghost was = r@;
            let ghost sm = *state;
            let ghost qm = *searches;
            let Expired { conn, reference, batch } = e;
            let action = dispatch_completed_batch(searches, state, conn.as_str(), batch, false, "", now);
            let ghost done = action;
            r.push(Outcome { conn, action });
            proof {
                assert(r@.drop_last() =~= was);
                assert(batch_dispatched(
                    sm,
                    *state,
                    qm,
                    *searches,
                    ev.conn,
                    ev.batch,
                    false,
                    Seq::empty(),
                    now,
                    r@.last().action,
                ));
            }
        }
    }
    assert(left.take(n) =~= left);
    r
}

/// A leaf is found where there is one.
proof fn lemma_leaf_from(list: Seq<ExpiredV>, i: int)
    requires
        0 <= i,
        leaf_from(list, i) < list.len(),
    ensures
        0 <= leaf_from(list, i),
        leaf(list, leaf_from(list, i)),
    decreases list.len() - i,
{
    if i < list.len() && !leaf(list, i) {
        lemma_leaf_from(list, i + 1);
    }
}

/// A search result is never taken for a live message: a search batch goes to the search, whether or not
/// the server closed it, and is not folded into the batch around it.
pub proof fn searches_stay_searches(b: BatchV, clean_end: bool, context: bool)
    requires
        b.kind == "soju.im/search"@,
    ensures
        !live_kind(b.kind),
        batch_action(b, clean_end, context) == BatchActionV::Searched,
{
    reveal_strlit("soju.im/search");
    reveal_strlit("chathistory");
    reveal_strlit("draft/chathistory-targets");
    reveal_strlit("draft/multiline");
    assert("soju.im/search"@.len() != "chathistory"@.len());
}

/// What a server supports is taken up as a whole or not at all: where the batch was not closed, lost
/// something, holds anything but such rows, or stands where it cannot count, nothing of it is applied,
/// and its rows are never handled one by one.
pub proof fn support_is_taken_whole(b: BatchV, clean_end: bool, context: bool)
    requires
        b.kind == "draft/isupport"@,
    ensures
        !live_kind(b.kind),
        batch_action(b, clean_end, context) == (if supports_whole(b, clean_end) {
            BatchActionV::Isupport(b)
        } else {
            BatchActionV::Dropped
        }),
        !clean_end || b.dropped > 0 || b.spoiled ==> batch_action(b, clean_end, context)
            == BatchActionV::Dropped,
{
    reveal_strlit("soju.im/search");
    reveal_strlit("chathistory");
    reveal_strlit("draft/chathistory-targets");
    reveal_strlit("draft/isupport");
    assert("draft/isupport"@[0] == 'd' && "soju.im/search"@[0] == 's');
    assert("draft/isupport"@.len() != "chathistory"@.len());
    assert("draft/isupport"@.len() != "draft/chathistory-targets"@.len());
}

/// The messages of history are never handled as live ones.
pub proof fn history_stays_history(b: BatchV, clean_end: bool)
    requires
        b.kind == "chathistory"@,
    ensures
        !live_kind(b.kind),
        batch_action(b, clean_end, false) == BatchActionV::History(b),
{
    reveal_strlit("soju.im/search");
    reveal_strlit("chathistory");
    reveal_strlit("draft/chathistory-targets");
    reveal_strlit("draft/isupport");
    assert("draft/isupport"@.len() != "chathistory"@.len());
    assert("soju.im/search"@.len() != "chathistory"@.len());
    assert("draft/chathistory-targets"@.len() != "chathistory"@.len());
}

/// The connection and the kind of a batch.
pub struct Head {
    pub conn: Seq<char>,
    pub kind: Seq<char>,
}

/// The batches that are not nested as live ones, in their order.
pub open spec fn outermost(list: Seq<ExpiredV>) -> Seq<Head>
    decreases list.len(),
{
    if list.len() == 0 {
        Seq::empty()
    } else {
        let init = outermost(list.drop_last());
        let e = list.last();
        if live_parent(e) is Some {
            init
        } else {
            init.push(Head { conn: e.conn, kind: e.batch.kind })
        }
    }
}

/// A nested batch leaves the outermost ones as they are.
proof fn lemma_nested_removed(list: Seq<ExpiredV>, i: int)
    requires
        0 <= i < list.len(),
        live_parent(list[i]) is Some,
    ensures
        outermost(list.remove(i)) == outermost(list),
    decreases list.len(),
{
    if i == list.len() - 1 {
        assert(list.remove(i) =~= list.drop_last());
    } else {
        lemma_nested_removed(list.drop_last(), i);
        assert(list.remove(i).drop_last() =~= list.drop_last().remove(i));
        assert(list.remove(i).last() == list.last());
    }
}

/// What a batch holds does not make it an outermost one.
proof fn lemma_filled(list: Seq<ExpiredV>, k: int, e: ExpiredV)
    requires
        0 <= k < list.len(),
        e.conn == list[k].conn,
        e.batch.kind == list[k].batch.kind,
        e.batch.opener == list[k].batch.opener,
    ensures
        outermost(list.update(k, e)) == outermost(list),
    decreases list.len(),
{
    let changed = list.update(k, e);
    if k == list.len() - 1 {
        assert(changed.drop_last() =~= list.drop_last());
    } else {
        lemma_filled(list.drop_last(), k, e);
        assert(changed.drop_last() =~= list.drop_last().update(k, e));
        assert(changed.last() == list.last());
    }
}

/// What a batch is handed changes neither its kind nor what opened it.
proof fn lemma_handed(b: BatchV, items: Seq<NumberedV>)
    ensures
        all_taken(b, items).kind == b.kind,
        all_taken(b, items).opener == b.opener,
    decreases items.len(),
{
    if items.len() > 0 {
        lemma_handed(b, items.drop_last());
    }
}

/// Folding keeps the outermost batches.
proof fn lemma_folding_keeps_outermost(open: Map<Seq<char>, Map<Seq<char>, BatchV>>, list: Seq<ExpiredV>)
    ensures
        outermost(all_folded(open, list).1) == outermost(list),
    decreases list.len(),
{
    let i = leaf_from(list, 0);
    if 0 <= i < list.len() {
        lemma_leaf_from(list, 0);
        let e = list[i];
        let rest = list.remove(i);
        lemma_nested_removed(list, i);
        let k = match_from(rest, e.conn, live_parent(e)->0, 0);
        if 0 <= k < rest.len() {
            lemma_handed(rest[k].batch, handed_on(e.batch, false));
            lemma_filled(
                rest,
                k,
                ExpiredV {
                    batch: extended(rest[k].batch, handed_on(e.batch, false), e.batch.dropped),
                    ..rest[k]
                },
            );
        }
        lemma_folding_keeps_outermost(open_folded(open, list, i), list_folded(list, i));
    }
}

/// There is an outcome for every outermost batch, and it is live only where the batch is.
proof fn lemma_outcomes(
    s0: AppState,
    s1: AppState,
    q0: Searches,
    q1: Searches,
    list: Seq<ExpiredV>,
    now: Clock,
    r: Seq<Outcome>,
)
    requires
        all_dispatched(s0, s1, q0, q1, list, now, r),
    ensures
        r.len() == outermost(list).len(),
        forall|j: int|
            0 <= j < r.len() ==> (#[trigger] r[j]).conn@ == outermost(list)[j].conn && (r[j].action is Live
                ==> live_kind(outermost(list)[j].kind)),
    decreases list.len(),
{
    if list.len() > 0 {
        let e = list.last();
        if live_parent(e) is Some {
            lemma_outcomes(s0, s1, q0, q1, list.drop_last(), now, r);
        } else {
            let (sm, qm) = choose|sm: AppState, qm: Searches|
                {
                    &&& all_dispatched(s0, sm, q0, qm, list.drop_last(), now, r.drop_last())
                    &&& #[trigger] batch_dispatched(
                        sm,
                        s1,
                        qm,
                        q1,
                        e.conn,
                        e.batch,
                        false,
                        Seq::empty(),
                        now,
                        r.last().action,
                    )
                };
            lemma_outcomes(s0, sm, q0, qm, list.drop_last(), now, r.drop_last());
            assert forall|j: int| 0 <= j < r.len() implies (#[trigger] r[j]).conn@ == outermost(list)[j].conn
                && (r[j].action is Live ==> live_kind(outermost(list)[j].kind)) by {
                if j < r.len() - 1 {
                    assert(r.drop_last()[j] == r[j]);
                } else {
                    assert(r[j] == r.last());
                    assert(r[j].action is Live ==> r[j].action@ is Live);
                }
            }
        }
    }
}

/// Batches that were not closed in time, whatever their order: only the outermost ones lead to
/// something, one action each, and messages come out as live ones only where the outermost batch
/// around them is a live one. So nothing that is nested in history, however deep, is taken for live.
pub proof fn nested_batches_stay_nested(
    open: Map<Seq<char>, Map<Seq<char>, BatchV>>,
    list: Seq<ExpiredV>,
    s0: AppState,
    s1: AppState,
    q0: Searches,
    q1: Searches,
    now: Clock,
    r: Seq<Outcome>,
)
    requires
        all_dispatched(s0, s1, q0, q1, all_folded(open, list).1, now, r),
    ensures
        r.len() == outermost(list).len(),
        forall|j: int|
            0 <= j < r.len() ==> {
                &&& (#[trigger] r[j]).conn@ == outermost(list)[j].conn
                &&& r[j].action is Live ==> live_kind(outermost(list)[j].kind)
            },
{
    lemma_folding_keeps_outermost(open, list);
    lemma_outcomes(s0, s1, q0, q1, all_folded(open, list).1, now, r);
}

/// History that answers the search of a connection is never taken for history as usual, and any other is.
pub proof fn context_goes_to_the_search(
    s0: AppState,
    s1: AppState,
    q0: Searches,
    q1: Searches,
    id: Seq<char>,
    b: BatchV,
    clean_end: bool,
    channel_types: Seq<char>,
    now: Clock,
    r: BatchAction,
)
    requires
        batch_dispatched(s0, s1, q0, q1, id, b, clean_end, channel_types, now, r),
        b.kind == "chathistory"@,
    ensures
        r is Searched <==> context_of(q0, s0, id, b) != ContextMatch::Other,
        r !is Searched ==> r@ == BatchActionV::History(b) && s1 == s0 && q1 == q0,
{
    history_stays_history(b, clean_end);
    assert(r is Searched <==> r@ is Searched);
}

proof fn lemma_match_from(list: Seq<ExpiredV>, conn: Seq<char>, reference: Seq<char>, i: int)
    requires
        0 <= i <= list.len(),
    ensures
        ({
            let k = match_from(list, conn, reference, i);
            &&& i <= k <= list.len()
            &&& k < list.len() ==> list[k].conn == conn && list[k].reference == reference
            &&& forall|j: int| i <= j < k ==> !((#[trigger] list[j]).conn == conn && list[j].reference == reference)
        }),
    decreases list.len() - i,
{
    if i < list.len() && !(list[i].conn == conn && list[i].reference == reference) {
        lemma_match_from(list, conn, reference, i + 1);
    }
}

/// What stands in a nested batch is not lost when its time is over. Where the batch around it has room, it
/// takes every message of a live one that is not one message of several lines, whether its own time is over
/// too or not.
pub proof fn nested_messages_are_kept(
    open: Map<Seq<char>, Map<Seq<char>, BatchV>>,
    list: Seq<ExpiredV>,
    i: int,
    x: NumberedV,
)
    requires
        0 <= i < list.len(),
        live_parent(list[i]) is Some,
        list[i].batch.kind != "draft/multiline"@,
        list[i].batch.messages.contains(x),
        forall|j: int|
            0 <= j < list.len() ==> (#[trigger] list[j]).batch.messages.len() + list[i].batch.messages.len() <= 4096,
        open.contains_key(list[i].conn) && open[list[i].conn].contains_key(live_parent(list[i])->0)
            ==> open[list[i].conn][live_parent(list[i])->0].messages.len() + list[i].batch.messages.len() <= 4096,
    ensures
        ({
            let conn = list[i].conn;
            let parent = live_parent(list[i])->0;
            let among = exists|j: int|
                0 <= j < list.len() && j != i && (#[trigger] list[j]).conn == conn && list[j].reference == parent;
            &&& among ==> exists|k: int|
                0 <= k < list_folded(list, i).len() && (#[trigger] list_folded(list, i)[k]).conn == conn
                    && list_folded(list, i)[k].reference == parent && list_folded(
                    list,
                    i,
                )[k].batch.messages.contains(x)
            &&& !among && open.contains_key(conn) && open[conn].contains_key(parent) ==> open_folded(
                open,
                list,
                i,
            )[conn][parent].messages.contains(x)
        }),
{
    let e = list[i];
    let conn = e.conn;
    let parent = live_parent(e)->0;
    let rest = list.remove(i);
    let k = match_from(rest, conn, parent, 0);
    lemma_match_from(rest, conn, parent, 0);
    assert forall|j: int| 0 <= j < list.len() && j != i && (#[trigger] list[j]).conn == conn && list[j].reference
        == parent implies k < rest.len() by {
        let p = if j < i {
            j
        } else {
            j - 1
        };
        assert(rest[p] == list[j]);
    }
    if k < rest.len() {
        let p = if k < i {
            k
        } else {
            k + 1
        };
        assert(rest[k] == list[p]);
        folding_loses_nothing(rest[k].batch, handed_on(e.batch, false), e.batch.dropped, x);
        assert(list_folded(list, i)[k].batch.messages.contains(x));
    } else {
        if open.contains_key(conn) && open[conn].contains_key(parent) {
            folding_loses_nothing(open[conn][parent], handed_on(e.batch, false), e.batch.dropped, x);
        }
    }
}

} // verus!
