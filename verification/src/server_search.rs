//! Searching on the server: one request per connection, shown in a view of its own.
use vstd::prelude::*;

use crate::app::{handle_took, lemma_took_one, App, Clock};
use crate::batch::{tag_text, tag_value, BatchInfo, BatchV, IrcMessage};
use crate::collections::{with_key, StrMap};
use crate::irc::{add_event_to_buffer, event_added};
use crate::monitor::{doubled, escape_percent};
use crate::search_query::{query, query_of};
use crate::state::{
    activated, blank, buffer_id_seq, event_shown, make_buffer_id, AppState, Buffer, BufferType, Connection,
    ConnectionStatus, Message,
};
use crate::text::{
    concat, concat3, decimal, decimal_seq, lower_seq, opt_text, parse_up_to, parsed_seq, same,
    same_ignoring_case, starts_with, texts,
};
use crate::times::{rfc3339_millis, rfc3339_seq};
use crate::wire::{command1, untagged, CommandV};

verus! {

broadcast use vstd::string::group_string_axioms;

/// What the server must be able to do for a search.
pub const SEARCH_CAP: &'static str = "soju.im/search";

/// The name of the view that shows results.
pub const SEARCH_VIEW: &'static str = "*search*";

/// What the labels of requests for context begin with.
pub const CONTEXT_LABEL: &'static str = "repartee-search-";

/// How long a request may go unanswered, in milliseconds.
pub const SEARCH_MS: u64 = 30_000;

/// How many lines of context are asked for.
pub const CONTEXT_LINES: u64 = 50;

pub const UNRESOLVED: &'static str = "A search is unresolved; wait for its reply or reconnect";

/// A request that is under way.
#[derive(Debug)]
pub struct Pending {
    /// When it was sent, in monotonic milliseconds.
    pub started: u64,
    pub target: String,
    pub limit: u64,
    /// Its results are not wanted any more.
    pub discard: bool,
    /// It asks for what stands around a result.
    pub context: bool,
    pub label: Option<String>,
}

/// What is remembered of a result, to ask for what stands around it.
#[derive(Debug)]
pub struct SearchRow {
    pub target: String,
    pub scope: String,
    pub at_ms: i64,
    pub msgid: Option<String>,
}

/// The searches of all connections.
pub struct Searches {
    pub pending: StrMap<Pending>,
    /// The buffer that shows the results of a connection.
    pub views: StrMap<String>,
    /// The results that are shown, by connection.
    pub rows: StrMap<Vec<SearchRow>>,
}

/// A buffer shows the results of a connection.
pub open spec fn shows_results(state: AppState, view: Seq<char>, id: Seq<char>) -> bool {
    &&& state.buffers@.contains_key(view)
    &&& state.buffers@[view].connection_id@ == id
    &&& state.buffers@[view].buffer_type == BufferType::Special
    &&& state.buffers@[view].name@ == SEARCH_VIEW@
}

/// The buffer that shows the results of a connection.
pub open spec fn view_of(views: Map<Seq<char>, String>, state: AppState, id: Seq<char>) -> Option<
    Seq<char>,
> {
    if views.contains_key(id) && shows_results(state, views[id]@, id) {
        Some(views[id]@)
    } else {
        None
    }
}

/// The buffer that shows the results of a connection.
pub fn search_view(views: &StrMap<String>, state: &AppState, id: &str) -> (r: Option<String>)
    ensures
        opt_text(r) == view_of(views@, *state, id@),
{
    match views.get(id) {
        None => None,
        Some(view) => match state.buffers.get(view.as_str()) {
            None => None,
            Some(b) => if same(b.connection_id.as_str(), id) && b.buffer_type == BufferType::Special
                && same(b.name.as_str(), SEARCH_VIEW) {
                Some(view.clone())
            } else {
                None
            },
        },
    }
}

/// A line was put into the view of a connection, where there is one.
pub open spec fn noted(
    views: Map<Seq<char>, String>,
    before: AppState,
    after: AppState,
    id: Seq<char>,
    text: Seq<char>,
    now_ms: i64,
) -> bool {
    match view_of(views, before, id) {
        Some(view) => event_added(before, after, view, doubled(text), now_ms),
        None => after == before,
    }
}

/// Puts a line into the view of a connection.
pub fn search_note(views: &StrMap<String>, state: &mut AppState, id: &str, text: &str, now_ms: i64)
    ensures
        noted(views@, *old(state), *final(state), id@, text@, now_ms),
{
    match search_view(views, state, id) {
        None => {},
        Some(view) => add_event_to_buffer(state, view.as_str(), escape_percent(text), now_ms),
    }
}

impl Searches {
    /// Nothing is searched for.
    pub fn new() -> (r: Searches)
        ensures
            r.pending@ == Map::<Seq<char>, Pending>::empty(),
            r.pending.keys() == Seq::<Seq<char>>::empty(),
            r.views@ == Map::<Seq<char>, String>::empty(),
            r.views.keys() == Seq::<Seq<char>>::empty(),
            r.rows@ == Map::<Seq<char>, Vec<SearchRow>>::empty(),
            r.rows.keys() == Seq::<Seq<char>>::empty(),
    {
        Searches { pending: StrMap::new(), views: StrMap::new(), rows: StrMap::new() }
    }

    /// Gives up the request of a connection that changed.
    pub fn reset_server_search(&mut self, state: &mut AppState, id: &str, now_ms: i64)
        ensures
            *final(self) == (Searches { pending: final(self).pending, ..*old(self) }),
            final(self).pending@ == old(self).pending@.remove(id@),
            if old(self).pending@.contains_key(id@) {
                noted(
                    old(self).views@,
                    *old(state),
                    *final(state),
                    id@,
                    "Search interrupted by a connection change; submit a new request after reconnect"@,
                    now_ms,
                )
            } else {
                *final(state) == *old(state)
            },
    {
        if self.pending.remove(id).is_some() {
            search_note(
                &self.views,
                state,
                id,
                "Search interrupted by a connection change; submit a new request after reconnect",
                now_ms,
            );
        }
    }
}

/// Whether a connection can be searched.
pub open spec fn can_search(c: Connection) -> bool {
    &&& c.origin_config.bouncer_network_id is Some
    &&& !c.origin_config.bouncer_control
    &&& c.status == ConnectionStatus::Connected
    &&& c.enabled_caps@.contains(SEARCH_CAP@)
    &&& c.enabled_caps@.contains("batch"@)
    &&& c.enabled_caps@.contains("server-time"@)
    &&& c.enabled_caps@.contains("message-tags"@)
}

/// Whether a connection can be searched.
fn may_search(c: &Connection) -> (r: bool)
    ensures
        r == can_search(*c),
{
    c.origin_config.bouncer_network_id.is_some() && !c.origin_config.bouncer_control && c.status
        == ConnectionStatus::Connected && c.enabled_caps.contains(SEARCH_CAP) && c.enabled_caps.contains(
        "batch",
    ) && c.enabled_caps.contains("server-time") && c.enabled_caps.contains("message-tags")
}

/// What `/bsearch` did.
#[derive(Debug)]
pub enum SearchStep {
    /// Nothing, and said why.
    Refused,
    /// The results of the request that is under way are not wanted any more.
    Cancelled,
    /// What stands around a result is asked for.
    Context,
    /// A request was sent; the lines of the last one are gone from the view.
    Sent { view: String, deleted: Vec<u64> },
}

/// The id of a view whose own is taken, made from something that was never used.
pub open spec fn other_view_id(id: Seq<char>, unique: Seq<char>) -> Seq<char> {
    id + "/search-"@ + unique
}

/// The id of a view whose own is taken.
pub fn search_view_id(id: &str, unique: &str) -> (r: String)
    ensures
        r@ == other_view_id(id@, unique@),
{
    concat3(id, "/search-", unique)
}

/// The view of a connection, and the state with it; a new one gets another id, made from `fresh`, where
/// its own is taken.
pub open spec fn view_opened(
    before: AppState,
    after: AppState,
    v0: Map<Seq<char>, String>,
    v1: Map<Seq<char>, String>,
    id: Seq<char>,
    fresh: Seq<char>,
    view: Seq<char>,
) -> bool {
    match view_of(v0, before, id) {
        Some(known) => view == known && after == before && v1 == v0,
        None => {
            &&& view == (if before.buffers@.contains_key(buffer_id_seq(id, SEARCH_VIEW@)) {
                other_view_id(id, fresh)
            } else {
                buffer_id_seq(id, SEARCH_VIEW@)
            })
            &&& v1 == v0.insert(id, v1[id])
            &&& v1[id]@ == view
            &&& after == (AppState { buffers: after.buffers, ..before })
            &&& after.buffers@ == before.buffers@.insert(view, after.buffers@[view])
            &&& after.buffers.keys() == with_key(before.buffers.keys(), view)
            &&& after.buffers@[view].id@ == view
            &&& after.buffers@[view].connection_id@ == id
            &&& after.buffers@[view].name@ == SEARCH_VIEW@
            &&& after.buffers@[view].buffer_type == BufferType::Special
            &&& blank(after.buffers@[view])
        },
    }
}

/// Finds the view of a connection, or opens it.
fn open_view(views: &mut StrMap<String>, state: &mut AppState, id: &str, fresh: &str) -> (r: String)
    ensures
        view_opened(*old(state), *final(state), old(views)@, final(views)@, id@, fresh@, r@),
        final(state).buffers@.contains_key(r@),
        final(state).connections == old(state).connections,
{
    match search_view(views, state, id) {
        Some(view) => view,
        None => {
            let own = make_buffer_id(id, SEARCH_VIEW);
            let view = if state.buffers.contains(own.as_str()) {
                search_view_id(id, fresh)
            } else {
                own
            };
            let mut buffer = Buffer::named(id, BufferType::Special, SEARCH_VIEW);
            buffer.id = view.clone();
            state.add_buffer(buffer);
            views.insert(id.to_string(), view.clone());
            view
        },
    }
}

/// The ids of messages.
pub open spec fn ids_of(messages: Seq<Message>) -> Seq<u64> {
    messages.map_values(|m: Message| m.id)
}

/// A view was emptied.
pub open spec fn emptied(before: AppState, after: AppState, view: Seq<char>, deleted: Seq<u64>) -> bool {
    &&& after == (AppState { buffers: after.buffers, ..before })
    &&& after.buffers.keys() == before.buffers.keys()
    &&& after.buffers@ == before.buffers@.insert(view, after.buffers@[view])
    &&& after.buffers@[view] == (Buffer {
        messages: after.buffers@[view].messages,
        ..before.buffers@[view]
    })
    &&& after.buffers@[view].messages@.len() == 0
    &&& deleted == ids_of(before.buffers@[view].messages@)
}

/// Empties a view; returns the ids of the lines that are gone.
fn empty_view(state: &mut AppState, view: &str) -> (r: Vec<u64>)
    requires
        old(state).buffers@.contains_key(view@),
    ensures
        emptied(*old(state), *final(state), view@, r@),
{
    let mut r: Vec<u64> = Vec::new();
    match state.buffers.get_mut(view) {
        None => {},
        Some(b) => {
            let ghost all = b.messages@;
            let mut i: usize = 0;
            while i < b.messages.len()
                invariant
                    i <= b.messages@.len(),
                    all == b.messages@,
                    r@ =~= ids_of(all).take(i as int),
                decreases b.messages@.len() - i,
            {
                r.push(b.messages[i].id);
                i = i + 1;
            }
            assert(r@ =~= ids_of(all));
            b.messages = Vec::new();
        },
    }
    r
}

/// What is said of a request that was sent.
pub open spec fn searching_text(target: Seq<char>, limit: u64) -> Seq<char> {
    "Searching "@ + target + " (up to "@ + decimal_seq(limit as nat)
        + " results); /bsearch cancel to stop displaying this request"@
}

/// A request was sent: the view is open, empty and active, and the request is under way.
pub open spec fn search_sent(
    before: AppState,
    after: AppState,
    s0: Searches,
    s1: Searches,
    id: Seq<char>,
    fresh: Seq<char>,
    target: Seq<char>,
    limit: u64,
    now: Clock,
    view: Seq<char>,
    deleted: Seq<u64>,
) -> bool {
    exists|a: AppState, b: AppState, c: AppState|
        {
            &&& #[trigger] view_opened(before, a, s0.views@, s1.views@, id, fresh, view)
            &&& #[trigger] emptied(a, b, view, deleted)
            &&& #[trigger] activated(b, c, view)
            &&& noted(s1.views@, c, after, id, searching_text(target, limit), now.utc_ms)
            &&& s1.rows@ == s0.rows@.remove(id)
            &&& s1.pending@ == s0.pending@.insert(id, s1.pending@[id])
            &&& s1.pending@[id].started == now.mono_ms
            &&& s1.pending@[id].target@ == target
            &&& s1.pending@[id].limit == limit
            &&& !s1.pending@[id].discard
            &&& !s1.pending@[id].context
            &&& s1.pending@[id].label is None
        }
}

/// What is said where a connection cannot be searched.
pub const CANNOT_SEARCH: &'static str =
    "Server search requires a connected bouncer network with acknowledged search, batch, server-time and message-tags support";

/// What is said of a request whose results are not wanted any more.
pub const CANCELLED: &'static str =
    "Search cancelled locally; wait for its terminal reply or reconnect before another search";

/// Nothing was done, and the reason was said.
pub open spec fn refused(
    before: App,
    after: App,
    s0: Searches,
    s1: Searches,
    text: Seq<char>,
    now: Clock,
    r: SearchStep,
) -> bool {
    &&& r is Refused
    &&& s1 == s0
    &&& after == (App { state: after.state, ..before })
    &&& event_shown(before.state, after.state, text, now.utc_ms)
}

/// What `/bsearch` does.
pub open spec fn search_commanded(
    before: App,
    after: App,
    s0: Searches,
    s1: Searches,
    args: Seq<Seq<char>>,
    fresh: Seq<char>,
    now: Clock,
    r: SearchStep,
) -> bool {
    match before.state.active() {
        None => refused(before, after, s0, s1, "No active connection"@, now, r),
        Some(buffer) => {
            let id = buffer.connection_id@;
            if args.len() > 0 && args[0] == "context"@ {
                r is Context && after == before && s1 == s0
            } else if args.len() == 1 && args[0] == "cancel"@ {
                if s0.pending@.contains_key(id) {
                    &&& r is Cancelled
                    &&& s1 == (Searches { pending: s1.pending, ..s0 })
                    &&& s1.pending@ == s0.pending@.insert(
                        id,
                        Pending { discard: true, ..s0.pending@[id] },
                    )
                    &&& after == (App { state: after.state, ..before })
                    &&& noted(s0.views@, before.state, after.state, id, CANCELLED@, now.utc_ms)
                } else {
                    refused(before, after, s0, s1, "No search is pending"@, now, r)
                }
            } else if s0.pending@.contains_key(id) {
                refused(before, after, s0, s1, UNRESOLVED@, now, r)
            } else if !(before.state.connections@.contains_key(id) && can_search(
                before.state.connections@[id],
            )) {
                refused(before, after, s0, s1, CANNOT_SEARCH@, now, r)
            } else {
                match query_of(args) {
                    Err(e) => refused(before, after, s0, s1, e, now, r),
                    Ok(q) => {
                        let command = untagged("SEARCH"@, seq![q.attributes]);
                        if !(before.irc_handles@.contains_key(id)
                            && before.irc_handles@[id].sender.open()) {
                            &&& r is Refused
                            &&& s1 == s0
                            &&& after == (App {
                                state: after.state,
                                irc_handles: after.irc_handles,
                                ..before
                            })
                            &&& if before.irc_handles@.contains_key(id) {
                                &&& after.irc_handles@ == before.irc_handles@.insert(
                                    id,
                                    after.irc_handles@[id],
                                )
                                &&& handle_took(
                                    before.irc_handles@[id],
                                    after.irc_handles@[id],
                                    seq![command],
                                )
                            } else {
                                after.irc_handles@ == before.irc_handles@
                            }
                            &&& event_shown(
                                before.state,
                                after.state,
                                "Could not send search request"@,
                                now.utc_ms,
                            )
                        } else {
                            &&& after == (App {
                                state: after.state,
                                irc_handles: after.irc_handles,
                                ..before
                            })
                            &&& after.irc_handles@ == before.irc_handles@.insert(
                                id,
                                after.irc_handles@[id],
                            )
                            &&& handle_took(
                                before.irc_handles@[id],
                                after.irc_handles@[id],
                                seq![command],
                            )
                            &&& r matches SearchStep::Sent { view, deleted }
                            &&& search_sent(
                                before.state,
                                after.state,
                                s0,
                                s1,
                                id,
                                fresh,
                                q.target,
                                q.limit,
                                now,
                                view@,
                                deleted@,
                            )
                        }
                    },
                }
            }
        },
    }
}

/// `/bsearch`: sends a request to search on the server, or gives up the one that is under way. From
/// `fresh`, which was never used, an id is made for a view whose own is taken.
pub fn command(app: &mut App, searches: &mut Searches, args: &Vec<String>, fresh: &str, now: Clock) -> (r:
    SearchStep)
    requires
        old(app).state.active() matches Some(b) ==> !old(app).state.buffers@.contains_key(
            other_view_id(b.connection_id@, fresh@),
        ),
    ensures
        search_commanded(
            *old(app),
            *final(app),
            *old(searches),
            *final(searches),
            texts(args@),
            fresh@,
            now,
            r,
        ),
{
    let ghost all = texts(args@);
    assert(all.len() == args@.len());
    assert(args@.len() > 0 ==> all[0] == args@[0]@);
    let id = match app.state.active_buffer() {
        None => {
            app.state.add_local_event("No active connection".to_string(), now.utc_ms);
            return SearchStep::Refused;
        },
        Some(b) => b.connection_id.clone(),
    };
    if args.len() > 0 && same(args[0].as_str(), "context") {
        return SearchStep::Context;
    }
    let under_way = searches.pending.contains(id.as_str());
    if args.len() == 1 && same(args[0].as_str(), "cancel") {
        if !under_way {
            app.state.add_local_event("No search is pending".to_string(), now.utc_ms);
            return SearchStep::Refused;
        }
        match searches.pending.get_mut(id.as_str()) {
            None => {},
            Some(p) => {
                p.discard = true;
            },
        }
        search_note(&searches.views, &mut app.state, id.as_str(), CANCELLED, now.utc_ms);
        return SearchStep::Cancelled;
    }
    if under_way {
        app.state.add_local_event(UNRESOLVED.to_string(), now.utc_ms);
        return SearchStep::Refused;
    }
    let ready = match app.state.connections.get(id.as_str()) {
        Some(c) => may_search(c),
        None => false,
    };
    if !ready {
        app.state.add_local_event(CANNOT_SEARCH.to_string(), now.utc_ms);
        return SearchStep::Refused;
    }
    let q = match query(args) {
        Err(e) => {
            app.state.add_local_event(e.to_string(), now.utc_ms);
            return SearchStep::Refused;
        },
        Ok(q) => q,
    };
    let wire = command1("SEARCH", q.attributes.as_str());
    let ghost cv = wire@;
    let sent = match app.irc_handles.get_mut(id.as_str()) {
        None => false,
        Some(handle) => {
            let ghost s0 = handle.sender;
            let sent = handle.sender.send(wire).is_ok();
            proof {
                lemma_took_one(s0, handle.sender, cv);
            }
            sent
        },
    };
    if !sent {
        app.state.add_local_event("Could not send search request".to_string(), now.utc_ms);
        return SearchStep::Refused;
    }
    begin_search(&mut app.state, searches, id.as_str(), fresh, q.target.as_str(), q.limit, now)
}

/// Opens and empties the view, and notes that the request is under way.
fn begin_search(
    state: &mut AppState,
    searches: &mut Searches,
    id: &str,
    fresh: &str,
    target: &str,
    limit: u64,
    now: Clock,
) -> (r: SearchStep)
    ensures
        r matches SearchStep::Sent { view, deleted } && search_sent(
            *old(state),
            *final(state),
            *old(searches),
            *final(searches),
            id@,
            fresh@,
            target@,
            limit,
            now,
            view@,
            deleted@,
        ),
{
    let ghost s0 = *state;
    let ghost q0 = *searches;
    let view = open_view(&mut searches.views, state, id, fresh);
    let ghost a = *state;
    let deleted = empty_view(state, view.as_str());
    let _rows = searches.rows.remove(id);
    let ghost b = *state;
    state.set_active_buffer(view.as_str());
    let ghost c = *state;
    searches.pending.insert(
        id.to_string(),
        Pending {
            started: now.mono_ms,
            target: target.to_string(),
            limit,
            discard: false,
            context: false,
            label: None,
        },
    );
    let head = concat3("Searching ", target, " (up to ");
    let text = concat3(
        head.as_str(),
        decimal(limit).as_str(),
        " results); /bsearch cancel to stop displaying this request",
    );
    assert(text@ =~= searching_text(target@, limit));
    search_note(&searches.views, state, id, text.as_str(), now.utc_ms);
    proof {
        assert(view_opened(s0, a, q0.views@, searches.views@, id@, fresh@, view@));
        assert(emptied(a, b, view@, deleted@));
        assert(activated(b, c, view@));
    }
    SearchStep::Sent { view, deleted }
}

/// A parameter is this text, in whatever case.
pub open spec fn holds_param(params: Seq<Seq<char>>, text: Seq<char>) -> bool {
    exists|i: int| 0 <= i < params.len() && lower_seq(#[trigger] params[i]) == lower_seq(text)
}

/// Whether a parameter is this text, in whatever case.
fn has_param(params: &Vec<String>, text: &str) -> (r: bool)
    ensures
        r == holds_param(texts(params@), text@),
{
    let mut i: usize = 0;
    while i < params.len()
        invariant
            i <= params@.len(),
            forall|j: int| 0 <= j < i ==> lower_seq(#[trigger] texts(params@)[j]) != lower_seq(text@),
        decreases params@.len() - i,
    {
        if same_ignoring_case(params[i].as_str(), text) {
            assert(lower_seq(texts(params@)[i as int]) == lower_seq(text@));
            return true;
        }
        i = i + 1;
    }
    false
}

/// What a message says went wrong with the request that is under way.
pub open spec fn failure_of(p: Pending, m: CommandV) -> Option<Seq<char>> {
    let fails = lower_seq(m.verb) == lower_seq("FAIL"@);
    let expected = if p.context {
        "CHATHISTORY"@
    } else {
        "SEARCH"@
    };
    if p.context && tag_value(m.tags, "label"@) != opt_text(p.label) {
        None
    } else if p.context && p.label is None && fails && !holds_param(m.params, p.target@)
        && !holds_param(m.params, "AROUND"@) {
        None
    } else if fails && m.params.len() > 0 && lower_seq(m.params[0]) == lower_seq(expected) {
        Some(m.params.last())
    } else if (m.verb == "421"@ || m.verb == "461"@) && m.params.len() > 1 && lower_seq(m.params[1])
        == lower_seq(expected) {
        Some(m.params.last())
    } else {
        None
    }
}

/// What a message says went wrong with the request that is under way.
fn failure(p: &Pending, m: &IrcMessage) -> (r: Option<String>)
    ensures
        opt_text(r) == failure_of(*p, m@.command),
{
    let c = &m.command;
    assert(c@.params.len() == c.params@.len());
    let label = tag_text(&c.tags, "label");
    let fails = same_ignoring_case(c.verb.as_str(), "FAIL");
    if p.context {
        let ours = match (&p.label, label) {
            (None, None) => true,
            (Some(a), Some(b)) => same(a.as_str(), b.as_str()),
            _ => false,
        };
        if !ours {
            return None;
        }
        if p.label.is_none() && fails && !has_param(&c.params, p.target.as_str()) && !has_param(
            &c.params,
            "AROUND",
        ) {
            return None;
        }
    }
    let expected = if p.context {
        "CHATHISTORY"
    } else {
        "SEARCH"
    };
    let n: usize = c.params.len();
    if n > 0 {
        assert(c@.params[0] == c.params@[0]@);
        assert(c@.params.last() == c.params@[n - 1]@);
        if fails && same_ignoring_case(c.params[0].as_str(), expected) {
            return Some(c.params[n - 1].clone());
        }
    }
    if n > 1 {
        assert(c@.params[1] == c.params@[1]@);
        if (same(c.verb.as_str(), "421") || same(c.verb.as_str(), "461")) && same_ignoring_case(
            c.params[1].as_str(),
            expected,
        ) {
            return Some(c.params[n - 1].clone());
        }
    }
    None
}

/// A connection whose request for context is over.
pub open spec fn context_over(before: AppState, after: AppState, id: Seq<char>, target: Seq<char>) -> bool {
    if before.connections@.contains_key(id) {
        let c = before.connections@[id];
        let h = after.connections@[id].chathistory;
        &&& after == (AppState { connections: after.connections, ..before })
        &&& after.connections@ == before.connections@.insert(id, after.connections@[id])
        &&& after.connections@[id] == (Connection { chathistory: h, ..c })
        &&& h == (crate::chathistory::ChatHistory {
            in_flight: h.in_flight,
            outcomes: h.outcomes,
            ..c.chathistory
        })
        &&& h.in_flight@ == c.chathistory.in_flight@.remove(lower_seq(target))
        &&& h.outcomes@ == c.chathistory.outcomes@.insert(lower_seq(target), false)
    } else {
        after == before
    }
}

/// Ends the request for context of a connection.
pub fn end_context(state: &mut AppState, id: &str, target: &str)
    ensures
        context_over(*old(state), *final(state), id@, target@),
{
    match state.connections.get_mut(id) {
        None => {},
        Some(c) => c.chathistory.complete_target(target, false),
    }
}

/// The request that is under way failed.
pub open spec fn search_failed(
    before: AppState,
    after: AppState,
    views: Map<Seq<char>, String>,
    p: Pending,
    id: Seq<char>,
    error: Seq<char>,
    now_ms: i64,
) -> bool {
    exists|middle: AppState|
        {
            &&& if p.context {
                #[trigger] context_over(before, middle, id, p.target@)
            } else {
                middle == before
            }
            &&& if p.discard {
                after == middle
            } else {
                noted(views, middle, after, id, "Search failed: "@ + error, now_ms)
            }
        }
}

/// A message that says that the request of a connection failed was taken up; `r` tells whether it was
/// one.
pub open spec fn search_handled(
    q0: Searches,
    q1: Searches,
    s0: AppState,
    s1: AppState,
    id: Seq<char>,
    m: CommandV,
    now_ms: i64,
    r: bool,
) -> bool {
    let p = q0.pending@[id];
    let error = failure_of(p, m);
    &&& r == (q0.pending@.contains_key(id) && error is Some)
    &&& if r {
        &&& q1 == (Searches { pending: q1.pending, ..q0 })
        &&& q1.pending@ == q0.pending@.remove(id)
        &&& search_failed(s0, s1, q0.views@, p, id, error->0, now_ms)
    } else {
        q1 == q0 && s1 == s0
    }
}

/// Takes up a message that says that the request of a connection failed; tells whether it was one.
pub fn handle_server_search(
    searches: &mut Searches,
    state: &mut AppState,
    id: &str,
    m: &IrcMessage,
    now_ms: i64,
) -> (r: bool)
    ensures
        search_handled(
            *old(searches),
            *final(searches),
            *old(state),
            *final(state),
            id@,
            m@.command,
            now_ms,
            r,
        ),
{
    let error = match searches.pending.get(id) {
        None => {
            return false;
        },
        Some(p) => match failure(p, m) {
            None => {
                return false;
            },
            Some(error) => error,
        },
    };
    let ghost before = *state;
    match searches.pending.remove(id) {
        None => {},
        Some(p) => {
            if p.context {
                end_context(state, id, p.target.as_str());
            }
            let ghost middle = *state;
            assert(p.context ==> context_over(before, middle, id@, p.target@));
            if !p.discard {
                let text = concat("Search failed: ", error.as_str());
                search_note(&searches.views, state, id, text.as_str(), now_ms);
            }
            proof {
                if !p.context {
                    lemma_failed_plain(
                        before,
                        *state,
                        searches.views@,
                        p,
                        id@,
                        error@,
                        now_ms,
                    );
                }
            }
        },
    }
    true
}

/// A failed request that did not ask for context changes nothing but the view.
proof fn lemma_failed_plain(
    before: AppState,
    after: AppState,
    views: Map<Seq<char>, String>,
    p: Pending,
    id: Seq<char>,
    error: Seq<char>,
    now_ms: i64,
)
    requires
        !p.context,
        if p.discard {
            after == before
        } else {
            noted(views, before, after, id, "Search failed: "@ + error, now_ms)
        },
    ensures
        search_failed(before, after, views, p, id, error, now_ms),
{
    let t = context_over(before, before, id, p.target@);
}

/// A request is to be given up: it took too long, or the server cannot answer it any more.
pub open spec fn overdue(p: Pending, state: AppState, id: Seq<char>, now: u64) -> bool {
    &&& !p.discard
    &&& now - p.started > SEARCH_MS || !state.connections@.contains_key(id) || ({
        let caps = state.connections@[id].enabled_caps@;
        let needed = if p.context {
            "draft/chathistory"@
        } else {
            SEARCH_CAP@
        };
        !(caps.contains(needed) && caps.contains("batch"@) && caps.contains("server-time"@)
            && caps.contains("message-tags"@))
    })
}

/// Whether a request is to be given up.
fn is_overdue(p: &Pending, state: &AppState, id: &str, now: u64) -> (r: bool)
    ensures
        r == overdue(*p, *state, id@, now),
{
    if p.discard {
        return false;
    }
    if now > p.started && now - p.started > SEARCH_MS {
        return true;
    }
    match state.connections.get(id) {
        None => true,
        Some(c) => {
            let needed = if p.context {
                "draft/chathistory"
            } else {
                SEARCH_CAP
            };
            !(c.enabled_caps.contains(needed) && c.enabled_caps.contains("batch")
                && c.enabled_caps.contains("server-time") && c.enabled_caps.contains("message-tags"))
        },
    }
}

/// What is said of a request that took too long.
pub const TIMED_OUT: &'static str =
    "Search timed out; late results will be discarded. Wait for the terminal reply or reconnect";

/// The results of a request that is overdue are not wanted any more.
pub open spec fn one_ticked(
    p0: Map<Seq<char>, Pending>,
    p1: Map<Seq<char>, Pending>,
    views: Map<Seq<char>, String>,
    s0: AppState,
    s1: AppState,
    id: Seq<char>,
    now: Clock,
) -> bool {
    if p0.contains_key(id) && overdue(p0[id], s0, id, now.mono_ms) {
        &&& p1 == p0.insert(id, Pending { discard: true, ..p0[id] })
        &&& noted(views, s0, s1, id, TIMED_OUT@, now.utc_ms)
    } else {
        p1 == p0 && s1 == s0
    }
}

/// Gives up the request of one connection where it is overdue.
pub fn tick_one_search(searches: &mut Searches, state: &mut AppState, id: &str, now: Clock)
    ensures
        *final(searches) == (Searches { pending: final(searches).pending, ..*old(searches) }),
        final(searches).pending.keys() == old(searches).pending.keys(),
        one_ticked(
            old(searches).pending@,
            final(searches).pending@,
            old(searches).views@,
            *old(state),
            *final(state),
            id@,
            now,
        ),
{
    let late = match searches.pending.get(id) {
        None => false,
        Some(p) => is_overdue(p, state, id, now.mono_ms),
    };
    if late {
        match searches.pending.get_mut(id) {
            None => {},
            Some(p) => {
                p.discard = true;
            },
        }
        search_note(&searches.views, state, id, TIMED_OUT, now.utc_ms);
    }
}

/// Requests are given up where they are overdue, one connection after the other.
pub open spec fn all_ticked(
    p0: Map<Seq<char>, Pending>,
    p1: Map<Seq<char>, Pending>,
    views: Map<Seq<char>, String>,
    s0: AppState,
    s1: AppState,
    ids: Seq<Seq<char>>,
    now: Clock,
) -> bool
    decreases ids.len(),
{
    if ids.len() == 0 {
        p1 == p0 && s1 == s0
    } else {
        exists|pm: Map<Seq<char>, Pending>, sm: AppState|
            {
                &&& all_ticked(p0, pm, views, s0, sm, ids.drop_last(), now)
                &&& #[trigger] one_ticked(pm, p1, views, sm, s1, ids.last(), now)
            }
    }
}

/// Every request that is overdue is given up, and the views whose buffer is gone are forgotten.
pub open spec fn searches_ticked(q0: Searches, q1: Searches, s0: AppState, s1: AppState, now: Clock) -> bool {
    &&& forall|k: Seq<char>| #[trigger]
        q1.views@.contains_key(k) <==> q0.views@.contains_key(k) && s0.buffers@.contains_key(
            q0.views@[k]@,
        )
    &&& forall|k: Seq<char>| #[trigger] q1.views@.contains_key(k) ==> q1.views@[k] == q0.views@[k]
    &&& q1.rows == q0.rows
    &&& q1.pending.keys() == q0.pending.keys()
    &&& all_ticked(q0.pending@, q1.pending@, q1.views@, s0, s1, q0.pending.keys(), now)
}

/// Gives up every request that is overdue, and forgets the views whose buffer is gone.
pub fn tick_server_search(searches: &mut Searches, state: &mut AppState, now: Clock)
    ensures
        searches_ticked(*old(searches), *final(searches), *old(state), *final(state), now),
{
    let ghost q0 = *searches;
    let ghost s0 = *state;
    let ghost keys = searches.views.keys();
    let n: usize = searches.views.len();
    let mut keep: Vec<bool> = Vec::new();
    let mut i: usize = 0;
    while i < n
        invariant
            *searches == q0,
            *state == s0,
            keys == searches.views.keys(),
            n == keys.len(),
            i <= n,
            keep@.len() == i,
            searches.views.ordered(),
            forall|j: int|
                0 <= j < i ==> (#[trigger] keep@[j] <==> s0.buffers@.contains_key(
                    q0.views@[keys[j]]@,
                )),
        decreases n - i,
    {
        keep.push(state.buffers.contains(searches.views.value_at(i).as_str()));
        i = i + 1;
    }
    searches.views.retain(&keep);
    proof {
        assert forall|k: Seq<char>| #[trigger] searches.views@.contains_key(k)
            <==> q0.views@.contains_key(k) && s0.buffers@.contains_key(q0.views@[k]@) by {
            if q0.views@.contains_key(k) {
                let j = keys.index_of(k);
                assert(keys[j] == k);
                assert(keep@[j] <==> s0.buffers@.contains_key(q0.views@[keys[j]]@));
            }
        }
    }
    let ghost ids = searches.pending.keys();
    let ghost views = searches.views@;
    let m: usize = searches.pending.len();
    let mut k: usize = 0;
    assert(ids.take(0) =~= Seq::<Seq<char>>::empty());
    while k < m
        invariant
            ids == searches.pending.keys(),
            m == ids.len(),
            k <= m,
            views == searches.views@,
            searches.rows == q0.rows,
            all_ticked(
                q0.pending@,
                searches.pending@,
                views,
                s0,
                *state,
                ids.take(k as int),
                now,
            ),
        decreases m - k,
    {
        let id = searches.pending.key_at(k).clone();
        let ghost pm = searches.pending@;
        let ghost sm = *state;
        tick_one_search(searches, state, id.as_str(), now);
        proof {
            assert(ids.take(k + 1).drop_last() =~= ids.take(k as int));
            assert(ids.take(k + 1).last() == id@);
            assert(one_ticked(
                pm,
                searches.pending@,
                views,
                sm,
                *state,
                ids.take(k + 1).last(),
                now,
            ));
        }
        k = k + 1;
    }
    assert(ids.take(m as int) =~= ids);
}

/// A round of giving up requests keeps what was asked.
pub proof fn lemma_ticked_keeps(
    p0: Map<Seq<char>, Pending>,
    p1: Map<Seq<char>, Pending>,
    views: Map<Seq<char>, String>,
    s0: AppState,
    s1: AppState,
    ids: Seq<Seq<char>>,
    now: Clock,
    id: Seq<char>,
)
    requires
        all_ticked(p0, p1, views, s0, s1, ids, now),
    ensures
        p1.contains_key(id) == p0.contains_key(id),
        p0.contains_key(id) ==> p1[id] == (Pending { discard: p1[id].discard, ..p0[id] }),
    decreases ids.len(),
{
    if ids.len() > 0 {
        let (pm, sm) = choose|pm: Map<Seq<char>, Pending>, sm: AppState|
            {
                &&& all_ticked(p0, pm, views, s0, sm, ids.drop_last(), now)
                &&& #[trigger] one_ticked(pm, p1, views, sm, s1, ids.last(), now)
            };
        lemma_ticked_keeps(p0, pm, views, s0, sm, ids.drop_last(), now, id);
    }
}

/// A request that went unanswered too long is given up in a round that looks at it.
pub proof fn lemma_late_is_given_up(
    p0: Map<Seq<char>, Pending>,
    p1: Map<Seq<char>, Pending>,
    views: Map<Seq<char>, String>,
    s0: AppState,
    s1: AppState,
    ids: Seq<Seq<char>>,
    now: Clock,
    id: Seq<char>,
)
    requires
        all_ticked(p0, p1, views, s0, s1, ids, now),
        p0.contains_key(id),
        now.mono_ms - p0[id].started > SEARCH_MS,
        ids.contains(id),
    ensures
        p1.contains_key(id) && p1[id].discard,
    decreases ids.len(),
{
    let (pm, sm) = choose|pm: Map<Seq<char>, Pending>, sm: AppState|
        {
            &&& all_ticked(p0, pm, views, s0, sm, ids.drop_last(), now)
            &&& #[trigger] one_ticked(pm, p1, views, sm, s1, ids.last(), now)
        };
    lemma_ticked_keeps(p0, pm, views, s0, sm, ids.drop_last(), now, id);
    if ids.last() != id {
        let k = ids.index_of(id);
        assert(ids.drop_last()[k] == id);
        lemma_late_is_given_up(p0, pm, views, s0, sm, ids.drop_last(), now, id);
    }
}

/// How an answer with history concerns the searches.
#[derive(Clone, Copy, Debug, PartialEq, Eq, Structural)]
pub enum ContextMatch {
    /// It is none of theirs.
    Other,
    /// It answers a request that nobody waits for any more.
    Late,
    /// It answers the request that is under way.
    Current,
}

/// How an answer with history concerns the search of a connection. `same_target` tells whether the
/// conversation that it is about is the one that was asked for.
pub open spec fn context_match(p: Option<Pending>, b: BatchV, same_target: bool) -> ContextMatch {
    let label = tag_value(b.opener, "label"@);
    let ours = label matches Some(l) && CONTEXT_LABEL@.is_prefix_of(l);
    let late = if ours {
        ContextMatch::Late
    } else {
        ContextMatch::Other
    };
    match p {
        Some(p) if b.params.len() > 0 && p.context && same_target && label == opt_text(p.label) =>
            ContextMatch::Current,
        _ => late,
    }
}

/// How an answer with history concerns the search of a connection.
pub fn match_context(searches: &Searches, id: &str, batch: &BatchInfo, same_target: bool) -> (r:
    ContextMatch)
    ensures
        r == context_match(
            if searches.pending@.contains_key(id@) {
                Some(searches.pending@[id@])
            } else {
                None
            },
            batch@,
            same_target,
        ),
{
    assert(batch@.params.len() == batch.params@.len());
    let label = tag_text(&batch.opener, "label");
    let ours = match label {
        Some(l) => starts_with(l.as_str(), CONTEXT_LABEL),
        None => false,
    };
    let current = match searches.pending.get(id) {
        None => false,
        Some(p) => batch.params.len() > 0 && p.context && same_target && (match (&p.label, label) {
            (None, None) => true,
            (Some(a), Some(b)) => same(a.as_str(), b.as_str()),
            _ => false,
        }),
    };
    if current {
        ContextMatch::Current
    } else if ours {
        ContextMatch::Late
    } else {
        ContextMatch::Other
    }
}

/// The row that a single argument names, counting from one.
pub open spec fn row_number(args: Seq<Seq<char>>) -> Option<nat> {
    if args.len() == 1 {
        match parsed_seq(args[0], u64::MAX as nat) {
            Some(n) if n >= 1 => Some((n - 1) as nat),
            _ => None,
        }
    } else {
        None
    }
}

/// The result that the arguments of `/bsearch context` name.
pub open spec fn anchor_of(
    searches: Searches,
    state: AppState,
    id: Seq<char>,
    args: Seq<Seq<char>>,
) -> Option<SearchRow> {
    match row_number(args) {
        Some(i) if view_of(searches.views@, state, id) is Some && searches.rows@.contains_key(id) && i
            < searches.rows@[id]@.len() => Some(searches.rows@[id]@[i as int]),
        _ => None,
    }
}

/// The result that the arguments of `/bsearch context` name.
pub fn context_anchor<'a>(searches: &'a Searches, state: &AppState, id: &str, args: &Vec<String>) -> (r:
    Option<&'a SearchRow>)
    ensures
        match r {
            Some(row) => anchor_of(*searches, *state, id@, texts(args@)) == Some(*row),
            None => anchor_of(*searches, *state, id@, texts(args@)) is None,
        },
{
    assert(texts(args@).len() == args@.len());
    if args.len() != 1 {
        return None;
    }
    assert(texts(args@)[0] == args@[0]@);
    let n: u64 = match parse_up_to(args[0].as_str(), u64::MAX) {
        None => {
            return None;
        },
        Some(n) => n,
    };
    if n < 1 || search_view(&searches.views, state, id).is_none() {
        return None;
    }
    match searches.rows.get(id) {
        None => None,
        Some(rows) => if n - 1 < rows.len() as u64 {
            Some(&rows[(n - 1) as usize])
        } else {
            None
        },
    }
}

/// What is to be asked for what stands around a result.
#[derive(Debug)]
pub struct ContextRequest {
    pub target: String,
    pub at_ms: i64,
    pub msgid: Option<String>,
    pub label: Option<String>,
}

/// Why what stands around a result is not asked for.
pub open spec fn context_refusal(
    searches: Searches,
    state: AppState,
    id: Seq<char>,
    args: Seq<Seq<char>>,
    ambiguous: bool,
) -> Option<Seq<char>> {
    if searches.pending@.contains_key(id) {
        Some(UNRESOLVED@)
    } else {
        match anchor_of(searches, state, id, args) {
            None => Some("Usage: /bsearch context <result row number>"@),
            Some(row) => {
                let there = state.connections@.contains_key(id);
                let c = state.connections@[id];
                let caps = c.enabled_caps@;
                if there && !caps.contains("labeled-response"@) && ambiguous {
                    Some(
                        "An earlier history request timed out; reconnect before requesting unlabelled context"@,
                    )
                } else if !(there && c.status == ConnectionStatus::Connected && c.key() == row.scope@
                    && caps.contains("draft/chathistory"@) && caps.contains("batch"@) && caps.contains(
                    "server-time"@,
                ) && caps.contains("message-tags"@)) {
                    Some("Context history is unavailable or another history request is pending"@)
                } else {
                    None
                }
            },
        }
    }
}

/// `/bsearch context`: what is to be asked for what stands around a result. `ambiguous` tells whether
/// an earlier request timed out, whose answer could be taken for this one's; `fresh` makes a label
/// that was never used. Whether the request could be sent is told with `context_requested`.
pub fn open_search_context(
    searches: &Searches,
    state: &mut AppState,
    id: &str,
    args: &Vec<String>,
    ambiguous: bool,
    fresh: &str,
    now_ms: i64,
) -> (r: Option<ContextRequest>)
    ensures
        match context_refusal(*searches, *old(state), id@, texts(args@), ambiguous) {
            Some(text) => r is None && event_shown(*old(state), *final(state), text, now_ms),
            None => {
                let row = anchor_of(*searches, *old(state), id@, texts(args@))->0;
                &&& *final(state) == *old(state)
                &&& r matches Some(q)
                &&& q.target@ == row.target@
                &&& q.at_ms == row.at_ms
                &&& opt_text(q.msgid) == opt_text(row.msgid)
                &&& opt_text(q.label) == (if old(
                    state,
                ).connections@[id@].enabled_caps@.contains("labeled-response"@) {
                    Some(CONTEXT_LABEL@ + fresh@)
                } else {
                    None
                })
            },
        },
{
    if searches.pending.contains(id) {
        state.add_local_event(UNRESOLVED.to_string(), now_ms);
        return None;
    }
    let row = match context_anchor(searches, state, id, args) {
        None => {
            state.add_local_event("Usage: /bsearch context <result row number>".to_string(), now_ms);
            return None;
        },
        Some(row) => row,
    };
    let (labels, ready) = match state.connections.get(id) {
        None => (true, false),
        Some(c) => (
            c.enabled_caps.contains("labeled-response"),
            c.status == ConnectionStatus::Connected && same(
                c.network_key().as_str(),
                row.scope.as_str(),
            ) && c.enabled_caps.contains("draft/chathistory") && c.enabled_caps.contains("batch")
                && c.enabled_caps.contains("server-time") && c.enabled_caps.contains("message-tags"),
        ),
    };
    if !labels && ambiguous {
        state.add_local_event(
            "An earlier history request timed out; reconnect before requesting unlabelled context".to_string(),
            now_ms,
        );
        return None;
    }
    if !ready {
        state.add_local_event(
            "Context history is unavailable or another history request is pending".to_string(),
            now_ms,
        );
        return None;
    }
    Some(
        ContextRequest {
            target: row.target.clone(),
            at_ms: row.at_ms,
            msgid: row.msgid.clone(),
            label: if labels {
                Some(concat(CONTEXT_LABEL, fresh))
            } else {
                None
            },
        },
    )
}

/// A request for context is under way: the view is empty and active.
pub open spec fn context_sent(
    before: AppState,
    after: AppState,
    s0: Searches,
    s1: Searches,
    id: Seq<char>,
    q: ContextRequest,
    now: Clock,
    deleted: Seq<u64>,
) -> bool {
    let view = view_of(s0.views@, before, id)->0;
    exists|b: AppState, c: AppState|
        {
            &&& #[trigger] emptied(before, b, view, deleted)
            &&& #[trigger] activated(b, c, view)
            &&& noted(
                s0.views@,
                c,
                after,
                id,
                "Loading context from "@ + q.target@ + " around "@ + rfc3339_seq(q.at_ms),
                now.utc_ms,
            )
            &&& s1 == (Searches { pending: s1.pending, rows: s1.rows, ..s0 })
            &&& s1.rows@ == s0.rows@.remove(id)
            &&& s1.pending@ == s0.pending@.insert(id, s1.pending@[id])
            &&& s1.pending@[id].started == now.mono_ms
            &&& s1.pending@[id].target@ == q.target@
            &&& s1.pending@[id].limit == CONTEXT_LINES
            &&& !s1.pending@[id].discard
            &&& s1.pending@[id].context
            &&& opt_text(s1.pending@[id].label) == opt_text(q.label)
        }
}

/// Notes whether a request for context could be sent; returns the ids of the lines that are gone from
/// the view.
pub fn context_requested(
    searches: &mut Searches,
    state: &mut AppState,
    id: &str,
    q: &ContextRequest,
    sent: bool,
    now: Clock,
) -> (r: Vec<u64>)
    ensures
        if !sent {
            &&& *final(searches) == *old(searches)
            &&& r@.len() == 0
            &&& event_shown(
                *old(state),
                *final(state),
                "Context history is unavailable or another history request is pending"@,
                now.utc_ms,
            )
        } else if view_of(old(searches).views@, *old(state), id@) is None {
            *final(searches) == *old(searches) && *final(state) == *old(state) && r@.len() == 0
        } else {
            context_sent(
                *old(state),
                *final(state),
                *old(searches),
                *final(searches),
                id@,
                *q,
                now,
                r@,
            )
        },
{
    if !sent {
        state.add_local_event(
            "Context history is unavailable or another history request is pending".to_string(),
            now.utc_ms,
        );
        return Vec::new();
    }
    let ghost s0 = *state;
    let view = match search_view(&searches.views, state, id) {
        None => {
            return Vec::new();
        },
        Some(view) => view,
    };
    let deleted = empty_view(state, view.as_str());
    let _rows = searches.rows.remove(id);
    let ghost b = *state;
    searches.pending.insert(
        id.to_string(),
        Pending {
            started: now.mono_ms,
            target: q.target.clone(),
            limit: CONTEXT_LINES,
            discard: false,
            context: true,
            label: q.label.clone(),
        },
    );
    state.set_active_buffer(view.as_str());
    let ghost c = *state;
    let head = concat3("Loading context from ", q.target.as_str(), " around ");
    let text = concat(head.as_str(), rfc3339_millis(q.at_ms).as_str());
    search_note(&searches.views, state, id, text.as_str(), now.utc_ms);
    proof {
        assert(emptied(s0, b, view@, deleted@));
        assert(activated(b, c, view@));
    }
    deleted
}

/// A search goes out. On a connected bouncer network whose server can search, with no request under way, a
/// well-formed request is sent as one command and waited for, under the conversation that it names; a second one
/// is not sent before the first is resolved.
pub proof fn searches_go_out(
    before: App,
    after: App,
    s0: Searches,
    s1: Searches,
    args: Seq<Seq<char>>,
    fresh: Seq<char>,
    now: Clock,
    r: SearchStep,
)
    requires
        search_commanded(before, after, s0, s1, args, fresh, now, r),
        before.state.active() is Some,
        args.len() > 0,
        args[0] != "context"@,
        args.len() == 1 ==> args[0] != "cancel"@,
        query_of(args) is Ok,
        ({
            let id = before.state.active()->0.connection_id@;
            let c = before.state.connections@[id];
            &&& before.state.connections@.contains_key(id)
            &&& c.origin_config.bouncer_network_id is Some
            &&& !c.origin_config.bouncer_control
            &&& c.status == ConnectionStatus::Connected
            &&& c.enabled_caps@.contains("soju.im/search"@)
            &&& c.enabled_caps@.contains("batch"@)
            &&& c.enabled_caps@.contains("server-time"@)
            &&& c.enabled_caps@.contains("message-tags"@)
            &&& before.irc_handles@.contains_key(id)
            &&& before.irc_handles@[id].sender.room is None
        }),
    ensures
        ({
            let id = before.state.active()->0.connection_id@;
            let sent = after.irc_handles@[id].sender.accepted();
            if s0.pending@.contains_key(id) {
                &&& r is Refused
                &&& after.irc_handles == before.irc_handles
                &&& s1 == s0
            } else {
                &&& r is Sent
                &&& sent.len() == before.irc_handles@[id].sender.accepted().len() + 1
                &&& sent.last() == untagged("SEARCH"@, seq![(query_of(args)->Ok_0).attributes])
                &&& s1.pending@.contains_key(id)
                &&& s1.pending@[id].target@ == args[0]
                &&& !s1.pending@[id].discard
            }
        }),
{
    let id = before.state.active()->0.connection_id@;
    let one = seq![untagged("SEARCH"@, seq![(query_of(args)->Ok_0).attributes])];
    assert(one.take(1) =~= one);
}

/// A search that fails makes room for the next: its connection waits for no answer any more, and no other
/// search is touched. A message that is about something else changes nothing.
pub proof fn failed_searches_make_room(
    q0: Searches,
    q1: Searches,
    s0: AppState,
    s1: AppState,
    id: Seq<char>,
    m: CommandV,
    now_ms: i64,
    r: bool,
    other: Seq<char>,
)
    requires
        search_handled(q0, q1, s0, s1, id, m, now_ms, r),
        q0.pending@.contains_key(id),
        !q0.pending@[id].context,
    ensures
        m.verb == "FAIL"@ && m.params.len() > 0 && m.params[0] == "SEARCH"@ ==> r,
        m.verb != "421"@ && m.verb != "461"@ && lower_seq(m.verb) != lower_seq("FAIL"@) ==> !r,
        r ==> !q1.pending@.contains_key(id),
        !r ==> q1 == q0 && s1 == s0,
        other != id && q0.pending@.contains_key(other) ==> q1.pending@.contains_key(other) && q1.pending@[other]
            == q0.pending@[other],
{
}

/// A number leads to its result: the one that stands at that place among those that are remembered, counted
/// from one, and no other number does.
pub proof fn numbers_lead_to_results(searches: Searches, state: AppState, id: Seq<char>, n: nat, text: Seq<char>)
    requires
        parsed_seq(text, u64::MAX as nat) == Some(n),
        view_of(searches.views@, state, id) is Some,
        searches.rows@.contains_key(id),
    ensures
        anchor_of(searches, state, id, seq![text]) == (if 1 <= n <= searches.rows@[id]@.len() {
            Some(searches.rows@[id]@[n - 1])
        } else {
            None
        }),
{
}

/// What stands around a result is asked for anew: the old results make room, the view is shown, and the
/// connection waits for lines of the conversation that was asked about; no other connection is touched.
pub proof fn contexts_are_waited_for(
    before: AppState,
    after: AppState,
    s0: Searches,
    s1: Searches,
    id: Seq<char>,
    q: ContextRequest,
    now: Clock,
    deleted: Seq<u64>,
    other: Seq<char>,
)
    requires
        context_sent(before, after, s0, s1, id, q, now, deleted),
        view_of(s0.views@, before, id) is Some,
    ensures
        s1.pending@.contains_key(id),
        s1.pending@[id].context && !s1.pending@[id].discard,
        s1.pending@[id].target@ == q.target@,
        !s1.rows@.contains_key(id),
        opt_text(after.active_buffer_id) == view_of(s0.views@, before, id),
        other != id && s0.pending@.contains_key(other) ==> s1.pending@.contains_key(other) && s1.pending@[other]
            == s0.pending@[other],
        other != id && s0.rows@.contains_key(other) ==> s1.rows@.contains_key(other) && s1.rows@[other]
            == s0.rows@[other],
{
}

} // verus!
