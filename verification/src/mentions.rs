//! The lines that mention the user, gathered in one buffer.
use vstd::prelude::*;

use crate::app::{Clock, Config};
use crate::collections::with_key;
use crate::maintenance::{mention_cutoff, MENTION_SECS};
use crate::network_scope::{bouncer_scope, is_bouncer_scope, network_scope, scope_seq};
use crate::server_history::slot_of;
use crate::state::{
    appended_at, blank, lemma_nth_id, nth_id, AppState, Buffer, BufferType, Connection, Message, MessageType,
    MessageV, ServerConfig,
};
use crate::text::{same, starts_with};
use crate::times::{calendar_millis, millis_of_seconds};

verus! {

broadcast use vstd::string::group_string_axioms;

/// The id of the buffer that gathers mentions.
pub const MENTIONS_BUFFER_ID: &'static str = "_mentions";

/// The most mentions that the buffer is filled with.
pub const MENTIONS_MAX: usize = 1000;

/// Whether the server keeps the history of where a mention was said.
pub open spec fn server_keeps(network: Seq<char>, buffer: Seq<char>) -> bool {
    bouncer_scope(network) && !(buffer.len() > 0 && buffer[0] == '=')
}

/// Whether the server keeps the history of where a mention was said.
pub fn mention_uses_server_history(network: &str, buffer: &str) -> (r: bool)
    ensures
        r == server_keeps(network@, buffer@),
{
    proof {
        reveal_strlit("=");
        assert("="@ =~= seq!['=']);
        if buffer@.len() > 0 && buffer@[0] == '=' {
            assert("="@ =~= buffer@.subrange(0, 1));
        }
        if "="@.is_prefix_of(buffer@) {
            assert(buffer@[0] == "="@[0]);
        }
    }
    is_bouncer_scope(network) && !starts_with(buffer, "=")
}

/// Where a mention was said, as it stands now.
#[derive(Debug)]
pub struct MentionTarget {
    pub connection_id: String,
    pub label: String,
}

/// The model of a [`MentionTarget`].
pub struct MentionTargetV {
    pub connection_id: Seq<char>,
    pub label: Seq<char>,
}

/// A connection is to this network.
pub open spec fn is_network(c: Connection, network: Seq<char>) -> bool {
    match c.network_scope {
        Some(scope) => scope@ == network,
        None => c.id@ == network,
    }
}

/// The first connection to a network, from `i` on.
pub open spec fn conn_from(state: AppState, network: Seq<char>, i: int) -> Option<Connection>
    decreases state.connections.keys().len() - i,
{
    if i >= state.connections.keys().len() || i < 0 {
        None
    } else {
        let c = state.connections@[state.connections.keys()[i]];
        if is_network(c, network) {
            Some(c)
        } else {
            conn_from(state, network, i + 1)
        }
    }
}

/// A configured server is this network.
pub open spec fn is_server(id: Seq<char>, server: ServerConfig, user: Seq<char>, network: Seq<char>) -> bool {
    if server.bound() {
        scope_seq(id, &server, user) == network
    } else {
        id == network
    }
}

/// The first configured server that is a network, from `i` on.
pub open spec fn server_from(config: Config, network: Seq<char>, i: int) -> Option<Seq<char>>
    decreases config.servers.keys().len() - i,
{
    if i >= config.servers.keys().len() || i < 0 {
        None
    } else {
        let id = config.servers.keys()[i];
        if is_server(id, config.servers@[id], config.username@, network) {
            Some(id)
        } else {
            server_from(config, network, i + 1)
        }
    }
}

/// Where a mention on a network was said: on the connection to it; else on the configured server that it
/// is, unless that is connected to another network by now; a network that nobody knows is taken by its
/// name, unless it belongs to a bouncer.
pub open spec fn target_of(config: Config, state: AppState, network: Seq<char>) -> Option<MentionTargetV> {
    match conn_from(state, network, 0) {
        Some(c) => Some(MentionTargetV { connection_id: c.id@, label: c.label@ }),
        None => match server_from(config, network, 0) {
            Some(id) => if state.connections@.contains_key(id) {
                None
            } else {
                Some(MentionTargetV { connection_id: id, label: config.servers@[id].label@ })
            },
            None => if bouncer_scope(network) || (state.connections@.contains_key(network)
                && state.connections@[network].network_scope is Some) || (config.servers@.contains_key(
                network,
            ) && config.servers@[network].bound()) {
                None
            } else {
                Some(MentionTargetV { connection_id: network, label: network })
            },
        },
    }
}

/// Where a mention on a network was said.
pub fn mention_target(config: &Config, state: &AppState, network: &str) -> (r: Option<MentionTarget>)
    ensures
        match r {
            Some(t) => target_of(*config, *state, network@) == Some(
                MentionTargetV { connection_id: t.connection_id@, label: t.label@ },
            ),
            None => target_of(*config, *state, network@) is None,
        },
{
    let n: usize = state.connections.len();
    let mut i: usize = 0;
    while i < n
        invariant
            n == state.connections.keys().len(),
            i <= n,
            conn_from(*state, network@, 0) == conn_from(*state, network@, i as int),
        decreases n - i,
    {
        let c = state.connections.value_at(i);
        let hit = match &c.network_scope {
            Some(scope) => same(scope.as_str(), network),
            None => same(c.id.as_str(), network),
        };
        if hit {
            return Some(MentionTarget { connection_id: c.id.clone(), label: c.label.clone() });
        }
        i = i + 1;
    }
    let m: usize = config.servers.len();
    let mut k: usize = 0;
    while k < m
        invariant
            m == config.servers.keys().len(),
            k <= m,
            conn_from(*state, network@, 0) is None,
            server_from(*config, network@, 0) == server_from(*config, network@, k as int),
        decreases m - k,
    {
        let id = config.servers.key_at(k);
        let server = config.servers.value_at(k);
        let hit = if server.bouncer_network_id.is_some() || server.bouncer_control {
            same(
                network_scope(id.as_str(), server, config.username.as_str()).as_str(),
                network,
            )
        } else {
            same(id.as_str(), network)
        };
        if hit {
            if state.connections.contains(id.as_str()) {
                return None;
            }
            return Some(MentionTarget { connection_id: id.clone(), label: server.label.clone() });
        }
        k = k + 1;
    }
    let scoped = match state.connections.get(network) {
        Some(c) => c.network_scope.is_some(),
        None => false,
    };
    let bound = match config.servers.get(network) {
        Some(server) => server.bouncer_network_id.is_some() || server.bouncer_control,
        None => false,
    };
    if is_bouncer_scope(network) || scoped || bound {
        return None;
    }
    Some(MentionTarget { connection_id: network.to_string(), label: network.to_string() })
}

/// What the network of a mention is called.
pub fn mention_label(config: &Config, state: &AppState, network: &str) -> (r: String)
    ensures
        r@ == (match target_of(*config, *state, network@) {
            Some(t) => t.label,
            None => "Previous bouncer network"@,
        }),
{
    match mention_target(config, state, network) {
        Some(t) => t.label,
        None => "Previous bouncer network".to_string(),
    }
}

/// Opens the buffer that gathers mentions, where it is not open; tells whether it was opened, so that it
/// is to be filled.
pub fn create_mentions_buffer(state: &mut AppState) -> (r: bool)
    ensures
        r == !old(state).buffers@.contains_key(MENTIONS_BUFFER_ID@),
        if r {
            let b = final(state).buffers@[MENTIONS_BUFFER_ID@];
            &&& *final(state) == (AppState { buffers: final(state).buffers, ..*old(state) })
            &&& final(state).buffers@ == old(state).buffers@.insert(MENTIONS_BUFFER_ID@, b)
            &&& b.id@ == MENTIONS_BUFFER_ID@
            &&& b.connection_id@.len() == 0
            &&& b.buffer_type == BufferType::Mentions
            &&& b.name@ == "Mentions"@
            &&& blank(b)
            &&& final(state).buffers.keys() == with_key(old(state).buffers.keys(), MENTIONS_BUFFER_ID@)
        } else {
            *final(state) == *old(state)
        },
{
    if state.buffers.contains(MENTIONS_BUFFER_ID) {
        return false;
    }
    let mut b = Buffer::named("", BufferType::Mentions, "Mentions");
    b.id = MENTIONS_BUFFER_ID.to_string();
    b.connection_id = String::new();
    state.add_buffer(b);
    true
}

/// A mention.
#[derive(Debug)]
pub struct MentionRow {
    pub id: i64,
    /// In seconds since the Unix epoch.
    pub timestamp: i64,
    pub network: String,
    pub buffer: String,
    pub channel: String,
    pub nick: String,
    pub text: String,
    /// The mention as it is written out, with the label of its network.
    pub line: String,
    /// The user does not hide it.
    pub shown: bool,
}

/// Rows in the order of time with one more; it goes behind those of the same time.
pub open spec fn placed(list: Seq<MentionRow>, x: MentionRow) -> Seq<MentionRow>
    decreases list.len(),
{
    if list.len() == 0 || list.last().timestamp <= x.timestamp {
        list.push(x)
    } else {
        placed(list.drop_last(), x).push(list.last())
    }
}

/// Rows in the order of time; those of one time stay in order.
pub open spec fn by_time(rows: Seq<MentionRow>) -> Seq<MentionRow>
    decreases rows.len(),
{
    if rows.len() == 0 {
        rows
    } else {
        placed(by_time(rows.drop_last()), rows.last())
    }
}

/// The stored mentions whose history the server does not keep.
pub open spec fn own_rows(rows: Seq<MentionRow>) -> Seq<MentionRow>
    decreases rows.len(),
{
    if rows.len() == 0 {
        rows
    } else {
        let init = own_rows(rows.drop_last());
        if server_keeps(rows.last().network@, rows.last().buffer@) {
            init
        } else {
            init.push(rows.last())
        }
    }
}

/// The mentions since a time.
pub open spec fn recent_rows(rows: Seq<MentionRow>, since: i64) -> Seq<MentionRow>
    decreases rows.len(),
{
    if rows.len() == 0 {
        rows
    } else {
        let init = recent_rows(rows.drop_last(), since);
        if rows.last().timestamp >= since {
            init.push(rows.last())
        } else {
            init
        }
    }
}

/// The mentions to show: of the recent ones, the stored ones whose history the server does not keep and
/// those that are kept in memory alone, in the order of time, and of too many the last.
pub open spec fn merged(stored: Seq<MentionRow>, volatile: Seq<MentionRow>, since: i64) -> Seq<MentionRow> {
    let all = by_time(recent_rows(own_rows(stored), since) + recent_rows(volatile, since));
    if all.len() > MENTIONS_MAX {
        all.skip(all.len() - MENTIONS_MAX)
    } else {
        all
    }
}

/// Where a row goes.
proof fn lemma_placed(list: Seq<MentionRow>, x: MentionRow, j: int)
    requires
        0 <= j <= list.len(),
        forall|k: int| j <= k < list.len() ==> (#[trigger] list[k]).timestamp > x.timestamp,
        j == 0 || list[j - 1].timestamp <= x.timestamp,
    ensures
        placed(list, x) == list.insert(j, x),
    decreases list.len(),
{
    if j == list.len() {
        assert(list.insert(j, x) =~= list.push(x));
    } else {
        let rest = list.drop_last();
        assert(list.last() == list[list.len() - 1]);
        lemma_placed(rest, x, j);
        assert(list.insert(j, x) =~= rest.insert(j, x).push(list.last()));
    }
}

/// Puts a row into its place.
fn place(list: &mut Vec<MentionRow>, x: MentionRow)
    ensures
        final(list)@ == placed(old(list)@, x),
{
    let ghost all = list@;
    let mut j: usize = list.len();
    while j > 0 && list[j - 1].timestamp > x.timestamp
        invariant
            j <= list@.len(),
            all == list@,
            forall|k: int| j <= k < all.len() ==> (#[trigger] all[k]).timestamp > x.timestamp,
        decreases j,
    {
        j = j - 1;
    }
    proof {
        lemma_placed(all, x, j as int);
    }
    list.insert(j, x);
}

/// The rows in order of arrival: how many steps of sorting lead to a list.
proof fn lemma_by_time_push(rows: Seq<MentionRow>, x: MentionRow)
    ensures
        by_time(rows.push(x)) == placed(by_time(rows), x),
{
    assert(rows.push(x).drop_last() =~= rows);
}

/// Puts the mentions together that are to be shown.
pub fn merge_mentions(stored: Vec<MentionRow>, volatile: Vec<MentionRow>, since: i64) -> (r: Vec<MentionRow>)
    ensures
        r@ == merged(stored@, volatile@, since),
{
    let ghost s = stored@;
    let ghost v = volatile@;
    let mut r: Vec<MentionRow> = Vec::new();
    let mut rest = stored;
    let ghost mut i: int = 0;
    assert(s.take(0) =~= Seq::<MentionRow>::empty());
    assert(rest@ =~= s.skip(0));
    while rest.len() > 0
        invariant
            0 <= i <= s.len(),
            rest@ == s.skip(i),
            r@ == by_time(recent_rows(own_rows(s.take(i)), since)),
        decreases rest@.len(),
    {
        let x = rest.remove(0);
        proof {
            assert(x == s[i]);
            assert(rest@ =~= s.skip(i + 1));
            assert(s.take(i + 1).drop_last() =~= s.take(i));
            assert(s.take(i + 1).last() == x);
            lemma_by_time_push(recent_rows(own_rows(s.take(i)), since), x);
            assert(own_rows(s.take(i)).push(x).drop_last() =~= own_rows(s.take(i)));
            i = i + 1;
        }
        if !mention_uses_server_history(x.network.as_str(), x.buffer.as_str()) && x.timestamp >= since {
            place(&mut r, x);
        }
    }
    assert(s.take(i) =~= s);
    let ghost own = recent_rows(own_rows(s), since);
    let mut more = volatile;
    let ghost mut k: int = 0;
    assert(v.take(0) =~= Seq::<MentionRow>::empty());
    assert(more@ =~= v.skip(0));
    assert(own + recent_rows(v.take(0), since) =~= own);
    while more.len() > 0
        invariant
            0 <= k <= v.len(),
            more@ == v.skip(k),
            r@ == by_time(own + recent_rows(v.take(k), since)),
        decreases more@.len(),
    {
        let x = more.remove(0);
        proof {
            assert(x == v[k]);
            assert(more@ =~= v.skip(k + 1));
            assert(v.take(k + 1).drop_last() =~= v.take(k));
            assert(v.take(k + 1).last() == x);
            let sofar = own + recent_rows(v.take(k), since);
            lemma_by_time_push(sofar, x);
            assert(own + recent_rows(v.take(k), since).push(x) =~= sofar.push(x));
            k = k + 1;
        }
        if x.timestamp >= since {
            place(&mut r, x);
        }
    }
    assert(v.take(k) =~= v);
    let ghost all = r@;
    let ghost mut gone: int = 0;
    assert(r@ =~= all.skip(0));
    while r.len() > MENTIONS_MAX
        invariant
            0 <= gone <= all.len(),
            r@ == all.skip(gone),
            gone > 0 ==> r@.len() >= MENTIONS_MAX,
        decreases r@.len(),
    {
        let _old = r.remove(0);
        proof {
            assert(r@ =~= all.skip(gone + 1));
            gone = gone + 1;
        }
    }
    r
}

/// A mention as a line; a time that no calendar holds becomes the present.
pub open spec fn mention_v(row: MentionRow, id: u64, text: Seq<char>, now_ms: i64) -> MessageV {
    MessageV {
        id,
        at_ms: match calendar_millis(row.timestamp) {
            Some(ms) => ms,
            None => now_ms,
        },
        message_type: MessageType::MentionLog,
        nick: None,
        nick_mode: None,
        text,
        highlight: true,
        event_key: None,
        event_params: Seq::empty(),
        msgid: None,
    }
}

/// A mention as a line. `text` is how it is written out.
pub fn mention_row_to_message(row: &MentionRow, id: u64, text: String, now_ms: i64) -> (r: Message)
    ensures
        r@ == mention_v(*row, id, text@, now_ms),
{
    let r = Message {
        id,
        at_ms: match millis_of_seconds(row.timestamp) {
            Some(ms) => ms,
            None => now_ms,
        },
        message_type: MessageType::MentionLog,
        nick: None,
        nick_mode: None,
        text,
        highlight: true,
        event_key: None,
        event_params: Vec::new(),
        msgid: None,
    };
    assert(r@ =~= mention_v(*row, id, text@, now_ms));
    r
}

/// The lines of mentions, with the ids that follow `counter`; those that the user hides keep their id
/// but are not shown.
pub open spec fn mention_lines(counter: u64, rows: Seq<MentionRow>, now_ms: i64) -> Seq<MessageV>
    decreases rows.len(),
{
    if rows.len() == 0 {
        Seq::empty()
    } else {
        let init = mention_lines(counter, rows.drop_last(), now_ms);
        if rows.last().shown {
            init.push(mention_v(rows.last(), nth_id(counter, rows.len()), rows.last().line@, now_ms))
        } else {
            init
        }
    }
}

/// Fills the buffer that gathers mentions with those of the last days. `stored` is what the log holds,
/// and `volatile` what is kept in memory alone.
pub fn load_mentions_history(
    state: &mut AppState,
    stored: Vec<MentionRow>,
    volatile: Vec<MentionRow>,
    now: Clock,
)
    ensures
        ({
            let rows = merged(stored@, volatile@, mention_cutoff(now) as i64);
            &&& *final(state) == (AppState {
                buffers: final(state).buffers,
                message_counter: nth_id(old(state).message_counter, rows.len()),
                ..*old(state)
            })
            &&& appended_at(
                old(state).buffers,
                final(state).buffers,
                MENTIONS_BUFFER_ID@,
                mention_lines(old(state).message_counter, rows, now.utc_ms),
            )
        }),
{
    let since: i64 = slot_of(now.utc_ms, 1000) - MENTION_SECS;
    let rows = merge_mentions(stored, volatile, since);
    let ghost before = *state;
    let ghost c0 = state.message_counter;
    let mut i: usize = 0;
    proof {
        lemma_nth_id(c0, 0);
        crate::state::lemma_appended_nothing(before.buffers, MENTIONS_BUFFER_ID@);
        assert(rows@.take(0) =~= Seq::<MentionRow>::empty());
    }
    while i < rows.len()
        invariant
            i <= rows@.len(),
            c0 == before.message_counter,
            *state == (AppState {
                buffers: state.buffers,
                message_counter: nth_id(c0, i as nat),
                ..before
            }),
            appended_at(
                before.buffers,
                state.buffers,
                MENTIONS_BUFFER_ID@,
                mention_lines(c0, rows@.take(i as int), now.utc_ms),
            ),
        decreases rows@.len() - i,
    {
        let ghost middle = *state;
        let id: u64 = state.next_message_id();
        proof {
            lemma_nth_id(c0, i as nat);
            assert(rows@.take(i + 1).drop_last() =~= rows@.take(i as int));
            assert(rows@.take(i + 1).last() == rows@[i as int]);
        }
        if rows[i].shown {
            let m = mention_row_to_message(&rows[i], id, rows[i].line.clone(), now.utc_ms);
            let ghost mv = m@;
            state.add_message(MENTIONS_BUFFER_ID, m);
            proof {
                let added = mention_lines(c0, rows@.take(i as int), now.utc_ms);
                crate::state::lemma_appended_twice(
                    before.buffers,
                    middle.buffers,
                    state.buffers,
                    MENTIONS_BUFFER_ID@,
                    added,
                    seq![mv],
                );
                assert(added + seq![mv] =~= added.push(mv));
            }
        }
        i = i + 1;
    }
    assert(rows@.take(rows@.len() as int) =~= rows@);
}

/// The order of time.
pub open spec fn in_time_order(rows: Seq<MentionRow>) -> bool {
    forall|i: int, j: int|
        0 <= i <= j < rows.len() ==> (#[trigger] rows[i]).timestamp <= (#[trigger] rows[j]).timestamp
}

/// The mentions to show are in the order of time, recent and not too many, and so are their lines; none
/// that was stored is shown where the server keeps its history.
pub proof fn mentions_are_ordered_and_bounded(
    stored: Seq<MentionRow>,
    volatile: Seq<MentionRow>,
    since: i64,
    counter: u64,
    now_ms: i64,
)
    ensures
        in_time_order(merged(stored, volatile, since)),
        merged(stored, volatile, since).len() <= MENTIONS_MAX,
        mention_lines(counter, merged(stored, volatile, since), now_ms).len() <= MENTIONS_MAX,
        forall|i: int|
            0 <= i < merged(stored, volatile, since).len() ==> {
                let row = #[trigger] merged(stored, volatile, since)[i];
                &&& row.timestamp >= since
                &&& volatile.contains(row) || (stored.contains(row) && !server_keeps(
                    row.network@,
                    row.buffer@,
                ))
            },
{
    let own = recent_rows(own_rows(stored), since);
    let more = recent_rows(volatile, since);
    let rows = own + more;
    lemma_by_time_ordered(rows);
    lemma_by_time_members(rows);
    lemma_recent(own_rows(stored), since);
    lemma_recent(volatile, since);
    lemma_own(stored);
    lemma_fewer_lines(counter, merged(stored, volatile, since), now_ms);
    assert forall|i: int| 0 <= i < merged(stored, volatile, since).len() implies ({
        let row = #[trigger] merged(stored, volatile, since)[i];
        &&& row.timestamp >= since
        &&& volatile.contains(row) || (stored.contains(row) && !server_keeps(row.network@, row.buffer@))
    }) by {
        let row = merged(stored, volatile, since)[i];
        let sorted = by_time(rows);
        let at = if sorted.len() > MENTIONS_MAX {
            sorted.len() - MENTIONS_MAX + i
        } else {
            i
        };
        assert(sorted[at] == row);
        assert(rows.contains(row));
        let k = rows.index_of(row);
        assert(rows[k] == row);
        if k < own.len() {
            assert(own[k] == row);
            assert(own_rows(stored).contains(row));
            let o = own_rows(stored).index_of(row);
            assert(own_rows(stored)[o] == row);
        } else {
            assert(more[k - own.len()] == row);
        }
    }
    let all = by_time(rows);
    if all.len() > MENTIONS_MAX {
        let cut = all.len() - MENTIONS_MAX;
        assert forall|i: int, j: int| 0 <= i <= j < all.skip(cut).len() implies (#[trigger] all.skip(
            cut,
        )[i]).timestamp <= (#[trigger] all.skip(cut)[j]).timestamp by {
            assert(all[cut + i].timestamp <= all[cut + j].timestamp);
        }
    }
}

/// Hidden mentions have no line.
proof fn lemma_fewer_lines(counter: u64, rows: Seq<MentionRow>, now_ms: i64)
    ensures
        mention_lines(counter, rows, now_ms).len() <= rows.len(),
    decreases rows.len(),
{
    if rows.len() > 0 {
        lemma_fewer_lines(counter, rows.drop_last(), now_ms);
    }
}

/// Recent rows are recent, and among the rows.
proof fn lemma_recent(rows: Seq<MentionRow>, since: i64)
    ensures
        forall|i: int|
            0 <= i < recent_rows(rows, since).len() ==> (#[trigger] recent_rows(rows, since)[i]).timestamp
                >= since && rows.contains(recent_rows(rows, since)[i]),
    decreases rows.len(),
{
    if rows.len() > 0 {
        let rest = rows.drop_last();
        lemma_recent(rest, since);
        let init = recent_rows(rest, since);
        let all = recent_rows(rows, since);
        assert(rows[rows.len() - 1] == rows.last());
        assert forall|i: int| 0 <= i < all.len() implies (#[trigger] all[i]).timestamp >= since
            && rows.contains(all[i]) by {
            if i < init.len() {
                assert(all[i] == init[i]);
                let k = rest.index_of(init[i]);
                assert(rows[k] == init[i]);
            }
        }
    }
}

/// The rows that the server does not keep are none that it keeps, and among the rows.
proof fn lemma_own(rows: Seq<MentionRow>)
    ensures
        forall|i: int|
            0 <= i < own_rows(rows).len() ==> !server_keeps(
                (#[trigger] own_rows(rows)[i]).network@,
                own_rows(rows)[i].buffer@,
            ) && rows.contains(own_rows(rows)[i]),
    decreases rows.len(),
{
    if rows.len() > 0 {
        let rest = rows.drop_last();
        lemma_own(rest);
        let init = own_rows(rest);
        let all = own_rows(rows);
        assert(rows[rows.len() - 1] == rows.last());
        assert forall|i: int| 0 <= i < all.len() implies !server_keeps(
            (#[trigger] all[i]).network@,
            all[i].buffer@,
        ) && rows.contains(all[i]) by {
            if i < init.len() {
                assert(all[i] == init[i]);
                let k = rest.index_of(init[i]);
                assert(rows[k] == init[i]);
            }
        }
    }
}

/// Sorting adds no row.
proof fn lemma_by_time_members(rows: Seq<MentionRow>)
    ensures
        forall|i: int| 0 <= i < by_time(rows).len() ==> rows.contains(#[trigger] by_time(rows)[i]),
    decreases rows.len(),
{
    if rows.len() > 0 {
        let rest = rows.drop_last();
        lemma_by_time_members(rest);
        lemma_placed_members(by_time(rest), rows.last());
        assert(rows[rows.len() - 1] == rows.last());
        assert forall|i: int| 0 <= i < by_time(rows).len() implies rows.contains(
            #[trigger] by_time(rows)[i],
        ) by {
            let x = by_time(rows)[i];
            if x != rows.last() {
                assert(by_time(rest).contains(x));
                let j = by_time(rest).index_of(x);
                assert(rest.contains(by_time(rest)[j]));
                let k = rest.index_of(x);
                assert(rows[k] == x);
            }
        }
    }
}

/// Placing a row adds no other.
proof fn lemma_placed_members(list: Seq<MentionRow>, x: MentionRow)
    ensures
        forall|i: int|
            0 <= i < placed(list, x).len() ==> (#[trigger] placed(list, x)[i]) == x || list.contains(
                placed(list, x)[i],
            ),
    decreases list.len(),
{
    if list.len() == 0 || list.last().timestamp <= x.timestamp {
        assert forall|i: int| 0 <= i < placed(list, x).len() implies (#[trigger] placed(list, x)[i]) == x
            || list.contains(placed(list, x)[i]) by {
            if i < list.len() {
                assert(placed(list, x)[i] == list[i]);
            }
        }
    } else {
        let rest = list.drop_last();
        lemma_placed_members(rest, x);
        let p = placed(rest, x);
        assert(list[list.len() - 1] == list.last());
        assert forall|i: int| 0 <= i < placed(list, x).len() implies (#[trigger] placed(list, x)[i]) == x
            || list.contains(placed(list, x)[i]) by {
            if i < p.len() {
                assert(placed(list, x)[i] == p[i]);
                if p[i] != x {
                    let k = rest.index_of(p[i]);
                    assert(list[k] == p[i]);
                }
            }
        }
    }
}

/// Keeps the mentions since a time.
pub fn keep_recent(rows: &mut Vec<MentionRow>, since: i64)
    ensures
        final(rows)@ == recent_rows(old(rows)@, since),
{
    let ghost all = rows@;
    let mut rest: Vec<MentionRow> = Vec::new();
    std::mem::swap(rows, &mut rest);
    let ghost mut i: int = 0;
    assert(rest@ =~= all.skip(0));
    assert(all.take(0) =~= Seq::<MentionRow>::empty());
    while rest.len() > 0
        invariant
            0 <= i <= all.len(),
            rest@ == all.skip(i),
            rows@ == recent_rows(all.take(i), since),
        decreases rest@.len(),
    {
        let x = rest.remove(0);
        proof {
            assert(x == all[i]);
            assert(rest@ =~= all.skip(i + 1));
            assert(all.take(i + 1).drop_last() =~= all.take(i));
            assert(all.take(i + 1).last() == x);
            i = i + 1;
        }
        if x.timestamp >= since {
            rows.push(x);
        }
    }
    assert(all.take(i) =~= all);
}

/// Sorting puts rows in the order of time.
proof fn lemma_by_time_ordered(rows: Seq<MentionRow>)
    ensures
        in_time_order(by_time(rows)),
    decreases rows.len(),
{
    if rows.len() > 0 {
        lemma_by_time_ordered(rows.drop_last());
        lemma_placed_ordered(by_time(rows.drop_last()), rows.last());
    }
}

/// Placing a row keeps the order.
proof fn lemma_placed_ordered(list: Seq<MentionRow>, x: MentionRow)
    requires
        in_time_order(list),
    ensures
        in_time_order(placed(list, x)),
        placed(list, x).len() == list.len() + 1,
        placed(list, x).last().timestamp == (if list.len() == 0 || list.last().timestamp
            <= x.timestamp {
            x.timestamp
        } else {
            list.last().timestamp
        }),
    decreases list.len(),
{
    if !(list.len() == 0 || list.last().timestamp <= x.timestamp) {
        let rest = list.drop_last();
        assert forall|i: int, j: int| 0 <= i <= j < rest.len() implies (#[trigger] rest[i]).timestamp
            <= (#[trigger] rest[j]).timestamp by {
            assert(list[i].timestamp <= list[j].timestamp);
        }
        lemma_placed_ordered(rest, x);
        let p = placed(rest, x);
        if rest.len() > 0 {
            assert(list[rest.len() - 1].timestamp <= list[list.len() - 1].timestamp);
        }
        assert forall|i: int, j: int| 0 <= i <= j < p.push(list.last()).len() implies (#[trigger] p.push(
            list.last(),
        )[i]).timestamp <= (#[trigger] p.push(list.last())[j]).timestamp by {
            if j < p.len() {
                assert(p[i].timestamp <= p[j].timestamp);
            } else if i < p.len() {
                assert(p[i].timestamp <= p[p.len() - 1].timestamp);
            }
        }
    } else {
        assert forall|i: int, j: int| 0 <= i <= j < list.push(x).len() implies (#[trigger] list.push(
            x,
        )[i]).timestamp <= (#[trigger] list.push(x)[j]).timestamp by {
            if j < list.len() {
                assert(list[i].timestamp <= list[j].timestamp);
            } else if i < list.len() {
                assert(list[i].timestamp <= list[list.len() - 1].timestamp);
            }
        }
    }
}

/// Placing a row loses none.
proof fn lemma_placed_all(list: Seq<MentionRow>, x: MentionRow)
    ensures
        placed(list, x).contains(x),
        forall|y: MentionRow| #[trigger] list.contains(y) ==> placed(list, x).contains(y),
    decreases list.len(),
{
    let all = placed(list, x);
    if list.len() == 0 || list.last().timestamp <= x.timestamp {
        assert(all[list.len() as int] == x);
        assert forall|y: MentionRow| #[trigger] list.contains(y) implies all.contains(y) by {
            assert(all[list.index_of(y)] == y);
        }
    } else {
        let rest = list.drop_last();
        let p = placed(rest, x);
        lemma_placed_all(rest, x);
        assert(all[p.index_of(x)] == x);
        assert forall|y: MentionRow| #[trigger] list.contains(y) implies all.contains(y) by {
            let k = list.index_of(y);
            if k < rest.len() {
                assert(rest[k] == y);
                assert(rest.contains(y));
                assert(p.contains(y));
                assert(all[p.index_of(y)] == y);
            } else {
                assert(all[all.len() - 1] == y);
            }
        }
    }
}

/// Sorting loses no row.
proof fn lemma_by_time_all(rows: Seq<MentionRow>, y: MentionRow)
    requires
        rows.contains(y),
    ensures
        by_time(rows).contains(y),
    decreases rows.len(),
{
    let rest = rows.drop_last();
    let k = rows.index_of(y);
    lemma_placed_all(by_time(rest), rows.last());
    if k < rest.len() {
        assert(rest[k] == y);
        lemma_by_time_all(rest, y);
    }
}

proof fn lemma_recent_all(rows: Seq<MentionRow>, since: i64, y: MentionRow)
    requires
        rows.contains(y),
        y.timestamp >= since,
    ensures
        recent_rows(rows, since).contains(y),
    decreases rows.len(),
{
    let rest = rows.drop_last();
    let k = rows.index_of(y);
    let all = recent_rows(rows, since);
    if k < rest.len() {
        assert(rest[k] == y);
        lemma_recent_all(rest, since, y);
        assert(all[recent_rows(rest, since).index_of(y)] == y);
    } else {
        assert(all[all.len() - 1] == y);
    }
}

proof fn lemma_own_all(rows: Seq<MentionRow>, y: MentionRow)
    requires
        rows.contains(y),
        !server_keeps(y.network@, y.buffer@),
    ensures
        own_rows(rows).contains(y),
    decreases rows.len(),
{
    let rest = rows.drop_last();
    let k = rows.index_of(y);
    let all = own_rows(rows);
    if k < rest.len() {
        assert(rest[k] == y);
        lemma_own_all(rest, y);
        assert(all[own_rows(rest).index_of(y)] == y);
    } else {
        assert(all[all.len() - 1] == y);
    }
}

/// No recent mention is missing: whether it is kept in memory alone, or stored where the server does not keep
/// the history, it is shown, unless as many as can be shown are not older than it. A row that is to be shown
/// has its line.
pub proof fn recent_mentions_are_shown(
    stored: Seq<MentionRow>,
    volatile: Seq<MentionRow>,
    since: i64,
    counter: u64,
    now_ms: i64,
    row: MentionRow,
)
    requires
        volatile.contains(row) || (stored.contains(row) && !server_keeps(row.network@, row.buffer@)),
        row.timestamp >= since,
    ensures
        merged(stored, volatile, since).contains(row) || (merged(stored, volatile, since).len() == MENTIONS_MAX
            && forall|i: int|
            0 <= i < MENTIONS_MAX ==> (#[trigger] merged(stored, volatile, since)[i]).timestamp >= row.timestamp),
        merged(stored, volatile, since).contains(row) && row.shown ==> exists|i: int|
            0 <= i < mention_lines(counter, merged(stored, volatile, since), now_ms).len() && (
            #[trigger] mention_lines(counter, merged(stored, volatile, since), now_ms)[i]).text == row.line@,
{
    let own = recent_rows(own_rows(stored), since);
    let more = recent_rows(volatile, since);
    let rows = own + more;
    let all = by_time(rows);
    if volatile.contains(row) {
        lemma_recent_all(volatile, since, row);
        assert(rows[own.len() + more.index_of(row)] == row);
    } else {
        lemma_own_all(stored, row);
        lemma_recent_all(own_rows(stored), since, row);
        assert(rows[own.index_of(row)] == row);
    }
    lemma_by_time_all(rows, row);
    lemma_by_time_ordered(rows);
    let k = all.index_of(row);
    let shown = merged(stored, volatile, since);
    if all.len() > MENTIONS_MAX {
        let cut = all.len() - MENTIONS_MAX;
        if k >= cut {
            assert(shown[k - cut] == row);
        } else {
            assert forall|i: int| 0 <= i < MENTIONS_MAX implies (#[trigger] shown[i]).timestamp >= row.timestamp by {
                assert(shown[i] == all[cut + i]);
                assert(all[k].timestamp <= all[cut + i].timestamp);
            }
        }
    }
    if shown.contains(row) && row.shown {
        lemma_line_of(counter, shown, now_ms, shown.index_of(row));
    }
}

proof fn lemma_line_of(counter: u64, rows: Seq<MentionRow>, now_ms: i64, k: int)
    requires
        0 <= k < rows.len(),
        rows[k].shown,
    ensures
        exists|i: int|
            0 <= i < mention_lines(counter, rows, now_ms).len() && (#[trigger] mention_lines(
                counter,
                rows,
                now_ms,
            )[i]).text == rows[k].line@,
    decreases rows.len(),
{
    let all = mention_lines(counter, rows, now_ms);
    let rest = rows.drop_last();
    let init = mention_lines(counter, rest, now_ms);
    if k < rest.len() {
        lemma_line_of(counter, rest, now_ms, k);
        let i = choose|i: int| 0 <= i < init.len() && (#[trigger] init[i]).text == rest[k].line@;
        assert(all[i] == init[i]);
    } else {
        assert(all[all.len() - 1].text == rows[k].line@);
    }
}

/// A mention leads to its own network: where a connection to it is there, to one of those connections, and
/// never to a connection of another network.
pub proof fn mentions_lead_to_their_network(config: Config, state: AppState, network: Seq<char>, id: Seq<char>)
    requires
        state.connections.ordered(),
        state.connections@.contains_key(id),
        state.connections@[id].network_scope matches Some(scope) ==> scope@ == network,
        state.connections@[id].network_scope is None ==> state.connections@[id].id@ == network,
    ensures
        target_of(config, state, network) is Some,
        exists|k: Seq<char>| #[trigger]
            state.connections@.contains_key(k) && state.connections@[k].id@ == (target_of(
                config,
                state,
                network,
            )->0).connection_id && (match state.connections@[k].network_scope {
                Some(scope) => scope@ == network,
                None => state.connections@[k].id@ == network,
            }),
{
    let keys = state.connections.keys();
    let j = keys.index_of(id);
    assert(keys.contains(id));
    lemma_conn_from(state, network, 0, j);
}

proof fn lemma_conn_from(state: AppState, network: Seq<char>, i: int, j: int)
    requires
        state.connections.ordered(),
        0 <= i <= j < state.connections.keys().len(),
        is_network(state.connections@[state.connections.keys()[j]], network),
    ensures
        exists|k: Seq<char>| #[trigger]
            state.connections@.contains_key(k) && conn_from(state, network, i) == Some(state.connections@[k])
                && is_network(state.connections@[k], network),
    decreases j - i,
{
    let k = state.connections.keys()[i];
    assert(state.connections@.contains_key(k));
    if !is_network(state.connections@[k], network) {
        lemma_conn_from(state, network, i + 1, j);
    }
}

} // verus!
