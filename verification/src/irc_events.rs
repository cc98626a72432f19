//! What the events of the connections lead to.
use vstd::prelude::*;

use crate::app::{handle_took, lemma_took_one, App, Clock, Config, IrcHandle};
use crate::batch::{
    live_kind, message_views, opens_spoiled, plain, spoil, tag_text, tag_value, taken, with_label,
    BatchInfo, BatchTracker, BatchV, IrcMessage, IrcMessageV, NumberedV,
};
use crate::chathistory::ChatHistory;
use crate::collections::{without_key, StrMap, StrSet};
use crate::completed::{
    all_batches, batch_dispatched, folded_into, handed_on, orders, receive_completed_batch, BatchAction,
    BatchActionV,
};
use crate::history_discovery::HistoryDiscovery;
use crate::irc::{
    add_event_to_buffer, apply_bouncer_identity, event_added, identity_applied, open_buffer, opened,
};
use crate::labels::{labels_ticked, tick_labels, Labels};
use crate::maintenance::Ping;
use crate::monitor::{reset_monitor, MonitorState};
use crate::multiline::Limits;
use crate::presence::{
    presence_reconnected, BouncerPresence, Browser, ConnectionPresence, ManualIntent,
};
use crate::read_markers::{PendingMarker, ReadMarkers, SentMarker};
use crate::server_search::{noted, Pending, SearchRow, Searches};
use crate::state::{
    buffer_id_seq, copy_texts, id_after, make_buffer_id, AppState, BufferType, Connection, ConnectionStatus,
};
use crate::text::{
    chars_of, concat3, cut_first, join, join_seq, joined_texts_part_again, lower_seq, opt_text, pieces, same,
    same_ignoring_case, slice_text, split_once, texts,
};
use crate::wire::{command1, command2, untagged, CommandV, TagV};

verus! {

broadcast use vstd::string::group_string_axioms;

/// What a bouncer must be able to do to tell its networks by itself.
pub const NETWORKS_NOTIFY_CAP: &'static str = "soju.im/bouncer-networks-notify";

/// What is said of a bouncer that keeps history but does not hand it out.
pub const NO_CHATHISTORY: &'static str =
    "Bouncer history stays on the server. This connection does not support CHATHISTORY; only live messages and server replay are available.";

/// What is kept for the sessions of the connections.
pub struct Sessions {
    /// The attempt to connect that counts, by connection.
    pub attempts: StrMap<u64>,
    /// How many sessions a connection has had.
    pub generations: StrMap<u64>,
    pub searches: Searches,
    pub monitors: StrMap<MonitorState>,
    pub markers: StrMap<ReadMarkers>,
    pub presence: BouncerPresence,
    pub discovery: StrMap<HistoryDiscovery>,
    /// The control connections whose networks are known.
    pub networks: StrSet,
    /// The pings of the connections.
    pub lag_pings: StrMap<Ping>,
    pub trackers: StrMap<BatchTracker>,
    pub labels: StrMap<Labels>,
}

impl Sessions {
    /// Nothing is connected.
    pub fn new() -> (r: Sessions)
        ensures
            r.attempts@ == Map::<Seq<char>, u64>::empty(),
            r.attempts.keys() == Seq::<Seq<char>>::empty(),
            r.generations@ == Map::<Seq<char>, u64>::empty(),
            r.generations.keys() == Seq::<Seq<char>>::empty(),
            r.searches.pending@ == Map::<Seq<char>, Pending>::empty(),
            r.searches.pending.keys() == Seq::<Seq<char>>::empty(),
            r.searches.views@ == Map::<Seq<char>, String>::empty(),
            r.searches.views.keys() == Seq::<Seq<char>>::empty(),
            r.searches.rows@ == Map::<Seq<char>, Vec<SearchRow>>::empty(),
            r.searches.rows.keys() == Seq::<Seq<char>>::empty(),
            r.monitors@ == Map::<Seq<char>, MonitorState>::empty(),
            r.monitors.keys() == Seq::<Seq<char>>::empty(),
            r.markers@ == Map::<Seq<char>, ReadMarkers>::empty(),
            r.markers.keys() == Seq::<Seq<char>>::empty(),
            r.presence.connections@ == Map::<Seq<char>, ConnectionPresence>::empty(),
            r.presence.connections.keys() == Seq::<Seq<char>>::empty(),
            r.presence.browsers@ == Map::<Seq<char>, Option<Browser>>::empty(),
            r.presence.browsers.keys() == Seq::<Seq<char>>::empty(),
            r.presence.manual@ == Map::<Seq<char>, ManualIntent>::empty(),
            r.presence.manual.keys() == Seq::<Seq<char>>::empty(),
            r.presence.revision == 0,
            r.discovery@ == Map::<Seq<char>, HistoryDiscovery>::empty(),
            r.discovery.keys() == Seq::<Seq<char>>::empty(),
            r.networks@ == Set::<Seq<char>>::empty(),
            r.lag_pings@ == Map::<Seq<char>, Ping>::empty(),
            r.lag_pings.keys() == Seq::<Seq<char>>::empty(),
            r.trackers@ == Map::<Seq<char>, BatchTracker>::empty(),
            r.trackers.keys() == Seq::<Seq<char>>::empty(),
            r.labels@ == Map::<Seq<char>, Labels>::empty(),
            r.labels.keys() == Seq::<Seq<char>>::empty(),
    {
        Sessions {
            attempts: StrMap::new(),
            generations: StrMap::new(),
            searches: Searches::new(),
            monitors: StrMap::new(),
            markers: StrMap::new(),
            presence: BouncerPresence::new(),
            discovery: StrMap::new(),
            networks: StrSet::new(),
            lag_pings: StrMap::new(),
            trackers: StrMap::new(),
            labels: StrMap::new(),
        }
    }
}

/// Something that happened on a connection.
pub enum IrcEvent {
    /// An event of one attempt to connect.
    Attempt(String, u64, Box<IrcEvent>),
    HandleReady(String, IrcHandle),
    /// What the server and the client agreed on, to be shown.
    NegotiationInfo(String, Vec<String>),
    Connected(String, StrSet, Option<Limits>),
    Disconnected(String, Option<String>),
    Message(String, IrcMessage),
    /// A message about capabilities, with the change that it makes.
    Cap(String, IrcMessage, CapChange),
}

/// What a message about capabilities changes.
pub struct CapChange {
    /// What is enabled from now on, where that changes.
    pub enabled: Option<StrSet>,
    /// What the server newly offers and the client wants.
    pub requested: Vec<String>,
}

/// The event that counts: one of an attempt counts only while that attempt is the current one.
pub open spec fn counting(attempts: Map<Seq<char>, u64>, event: IrcEvent) -> Option<IrcEvent>
    decreases event,
{
    match event {
        IrcEvent::Attempt(id, generation, inner) => if attempts.contains_key(id@) && attempts[id@]
            == generation {
            counting(attempts, *inner)
        } else {
            None
        },
        _ => Some(event),
    }
}

/// The event that counts.
pub fn current_event(attempts: &StrMap<u64>, event: IrcEvent) -> (r: Option<IrcEvent>)
    ensures
        r == counting(attempts@, event),
    decreases event,
{
    match event {
        IrcEvent::Attempt(id, generation, inner) => {
            let current = match attempts.get(id.as_str()) {
                Some(g) => *g == generation,
                None => false,
            };
            if current {
                current_event(attempts, *inner)
            } else {
                None
            }
        },
        other => Some(other),
    }
}

/// The client's address on a connection is noted.
pub open spec fn addressed_at(before: AppState, after: AppState, conn: Seq<char>, ip: Option<String>) -> bool {
    if before.connections@.contains_key(conn) {
        &&& after == (AppState { connections: after.connections, ..before })
        &&& after.connections.keys() == before.connections.keys()
        &&& after.connections@ == before.connections@.insert(conn, after.connections@[conn])
        &&& after.connections@[conn] == (Connection {
            local_ip: after.connections@[conn].local_ip,
            ..before.connections@[conn]
        })
        &&& opt_text(after.connections@[conn].local_ip) == opt_text(ip)
    } else {
        after == before
    }
}

/// A connection got its live side: the search of the session before is given up, what the bouncer said
/// is taken up, and a new session begins.
pub open spec fn handle_ready_done(
    before: App,
    after: App,
    s0: Sessions,
    s1: Sessions,
    account: Seq<char>,
    conn: Seq<char>,
    handle: IrcHandle,
    now_ms: i64,
) -> bool {
    &&& s1 == (Sessions { searches: s1.searches, generations: s1.generations, ..s0 })
    &&& s1.searches == (Searches { pending: s1.searches.pending, ..s0.searches })
    &&& s1.searches.pending@ == s0.searches.pending@.remove(conn)
    &&& s1.generations@ == s0.generations@.insert(
        conn,
        id_after(
            if s0.generations@.contains_key(conn) {
                s0.generations@[conn]
            } else {
                0
            },
        ),
    )
    &&& after == (App { state: after.state, irc_handles: after.irc_handles, ..before })
    &&& after.irc_handles@ == before.irc_handles@.insert(conn, handle)
    &&& exists|middle: AppState, located: AppState|
        {
            &&& if s0.searches.pending@.contains_key(conn) {
                noted(
                    s0.searches.views@,
                    before.state,
                    middle,
                    conn,
                    "Search interrupted by a connection change; submit a new request after reconnect"@,
                    now_ms,
                )
            } else {
                middle == before.state
            }
            &&& #[trigger] addressed_at(middle, located, conn, handle.local_ip)
            &&& #[trigger] identity_applied(
                before.config,
                located,
                after.state,
                account,
                conn,
                handle.bouncer_identity,
                handle.bouncer_provider,
            )
        }
}

/// Takes up the live side of a connection. `account` is the bouncer account whose network it is.
pub fn handle_ready(
    app: &mut App,
    sessions: &mut Sessions,
    account: &str,
    conn: &str,
    handle: IrcHandle,
    now_ms: i64,
)
    ensures
        handle_ready_done(
            *old(app),
            *final(app),
            *old(sessions),
            *final(sessions),
            account@,
            conn@,
            handle,
            now_ms,
        ),
{
    sessions.searches.reset_server_search(&mut app.state, conn, now_ms);
    let ghost middle = app.state;
    match app.state.connections.get_mut(conn) {
        Some(c) => {
            c.local_ip = match &handle.local_ip {
                Some(ip) => Some(ip.clone()),
                None => None,
            };
        },
        None => {},
    }
    let ghost located = app.state;
    assert(addressed_at(middle, located, conn@, handle.local_ip));
    let identity = match &handle.bouncer_identity {
        Some(identity) => Some(identity.copy()),
        None => None,
    };
    assert(identity == handle.bouncer_identity);
    apply_bouncer_identity(&app.config, &mut app.state, account, conn, identity, handle.bouncer_provider);
    assert(identity_applied(
        app.config,
        located,
        app.state,
        account@,
        conn@,
        handle.bouncer_identity,
        handle.bouncer_provider,
    ));
    let generation: u64 = match sessions.generations.get(conn) {
        Some(g) => *g,
        None => 0,
    };
    let next: u64 = if generation == u64::MAX {
        assert((u64::MAX + 1) % 0x1_0000_0000_0000_0000 == 0);
        0
    } else {
        generation + 1
    };
    sessions.generations.insert(conn.to_string(), next);
    app.irc_handles.insert(conn.to_string(), handle);
}

/// Lines about an agreement were shown, one after the other.
pub open spec fn negotiation_shown(
    before: AppState,
    after: AppState,
    buffer: Seq<char>,
    lines: Seq<Seq<char>>,
    now_ms: i64,
) -> bool
    decreases lines.len(),
{
    if lines.len() == 0 {
        after == before
    } else {
        exists|middle: AppState|
            negotiation_shown(before, middle, buffer, lines.drop_last(), now_ms) && #[trigger] event_added(
                middle,
                after,
                buffer,
                "%Z56b6c2"@ + lines.last() + "%N"@,
                now_ms,
            )
    }
}

/// The server buffer of a connection; of one that is gone, its id.
pub open spec fn status_buffer(state: AppState, conn: Seq<char>) -> Seq<char> {
    if state.connections@.contains_key(conn) {
        buffer_id_seq(conn, state.connections@[conn].label@)
    } else {
        conn
    }
}

/// Shows what the server and the client agreed on.
pub fn negotiation_info(state: &mut AppState, conn: &str, lines: &Vec<String>, now_ms: i64)
    ensures
        negotiation_shown(
            *old(state),
            *final(state),
            status_buffer(*old(state), conn@),
            texts(lines@),
            now_ms,
        ),
{
    let ghost before = *state;
    let buffer = match state.connections.get(conn) {
        Some(c) => make_buffer_id(conn, c.label.as_str()),
        None => conn.to_string(),
    };
    let ghost all = texts(lines@);
    let mut i: usize = 0;
    assert(all.take(0) =~= Seq::<Seq<char>>::empty());
    while i < lines.len()
        invariant
            i <= lines@.len(),
            all == texts(lines@),
            negotiation_shown(before, *state, buffer@, all.take(i as int), now_ms),
        decreases lines@.len() - i,
    {
        let ghost middle = *state;
        let text = concat3("%Z56b6c2", lines[i].as_str(), "%N");
        add_event_to_buffer(state, buffer.as_str(), text, now_ms);
        proof {
            assert(all.take(i + 1).drop_last() =~= all.take(i as int));
            assert(all.take(i + 1).last() == lines@[i as int]@);
            assert(event_added(
                middle,
                *state,
                buffer@,
                "%Z56b6c2"@ + all.take(i + 1).last() + "%N"@,
                now_ms,
            ));
        }
        i = i + 1;
    }
    assert(all.take(all.len() as int) =~= all);
}

/// The markers of a connection begin anew: only what is still to be confirmed is kept, and only for the
/// same network. `r` tells whether the network is another one.
pub open spec fn markers_reconnected(
    m0: Map<Seq<char>, ReadMarkers>,
    m1: Map<Seq<char>, ReadMarkers>,
    state: AppState,
    conn: Seq<char>,
    r: bool,
) -> bool {
    if !state.connections@.contains_key(conn) {
        m1 == m0 && !r
    } else {
        let key = state.connections@[conn].key();
        let scope = if m0.contains_key(conn) {
            m0[conn].scope@
        } else {
            Seq::empty()
        };
        let m = m1[conn];
        &&& r == (scope != key)
        &&& m1 == m0.insert(conn, m)
        &&& m.scope@ == key
        &&& m.desired@ == (if r || !m0.contains_key(conn) {
            Map::empty()
        } else {
            m0[conn].desired@
        })
        &&& m.confirmed@ == Map::<Seq<char>, Option<i64>>::empty()
        &&& m.sent@ == Map::<Seq<char>, SentMarker>::empty()
        &&& m.queried@ == Map::<Seq<char>, u64>::empty()
        &&& m.rejected@ == Map::<Seq<char>, i64>::empty()
        &&& m.rejected_queries@ == Set::<Seq<char>>::empty()
        &&& m.pending@ == Seq::<PendingMarker>::empty()
        &&& m.failures@ == Map::<Seq<char>, u8>::empty()
        &&& m.retry_after@ == Map::<Seq<char>, u64>::empty()
    }
}

/// Lets the markers of a connection begin anew.
pub fn reconnect_markers(map: &mut StrMap<ReadMarkers>, state: &AppState, conn: &str) -> (r: bool)
    ensures
        markers_reconnected(old(map)@, final(map)@, *state, conn@, r),
{
    let c = match state.connections.get(conn) {
        None => {
            return false;
        },
        Some(c) => c,
    };
    let ghost m0 = map@;
    if !map.contains(conn) {
        proof {
            reveal_strlit("");
            assert(""@ =~= Seq::<char>::empty());
        }
        map.insert(conn.to_string(), ReadMarkers::new(""));
    }
    let r = match map.get_mut(conn) {
        None => false,
        Some(m) => m.reconnect_read_markers(c.network_key().as_str()),
    };
    assert(map@ =~= m0.insert(conn@, map@[conn@]));
    r
}

/// The channels to join again: those that a connection was in, unless the bouncer keeps it in them.
pub open spec fn rejoins(state: AppState, conn: Seq<char>) -> Seq<Seq<char>> {
    if state.connections@.contains_key(conn) && state.connections@[conn].network_id() is None
        && !state.connections@[conn].control() {
        texts(state.connections@[conn].joined_channels@)
    } else {
        Seq::empty()
    }
}

/// The channels to join again.
fn channels_to_rejoin(state: &AppState, conn: &str) -> (r: Vec<String>)
    ensures
        texts(r@) == rejoins(*state, conn@),
{
    match state.connections.get(conn) {
        Some(c) => {
            if c.bouncer_network_id().is_none() && !c.bouncer_control() {
                return copy_texts(&c.joined_channels);
            }
        },
        None => {},
    }
    let r: Vec<String> = Vec::new();
    assert(texts(r@) =~= Seq::<Seq<char>>::empty());
    r
}

/// The first configured server that a connection is of, from `i` on.
pub open spec fn server_of(config: Config, conn: Seq<char>, i: int) -> Option<Seq<char>>
    decreases config.servers.keys().len() - i,
{
    if i >= config.servers.keys().len() || i < 0 {
        None
    } else {
        let id = config.servers.keys()[i];
        if id == conn || config.servers@[id].label@ == conn {
            Some(id)
        } else {
            server_of(config, conn, i + 1)
        }
    }
}

/// The configured server that a connection is of: by its id, or by its label.
fn find_server(config: &Config, conn: &str) -> (r: Option<String>)
    ensures
        opt_text(r) == server_of(*config, conn@, 0),
{
    let n: usize = config.servers.len();
    let mut i: usize = 0;
    while i < n
        invariant
            n == config.servers.keys().len(),
            i <= n,
            server_of(*config, conn@, 0) == server_of(*config, conn@, i as int),
        decreases n - i,
    {
        let id = config.servers.key_at(i);
        if same(id.as_str(), conn) || same(config.servers.value_at(i).label.as_str(), conn) {
            return Some(id.clone());
        }
        i = i + 1;
    }
    None
}

/// The channels that the configuration names for a connection; none where the bouncer decides.
pub open spec fn configured_channels(config: Config, state: AppState, conn: Seq<char>) -> Seq<Seq<char>> {
    let explicit = state.connections@.contains_key(conn) && (state.connections@[conn].network_id() is Some
        || state.connections@[conn].control());
    match server_of(config, conn, 0) {
        Some(id) if !explicit && config.servers@.contains_key(id) => texts(config.servers@[id].channels@),
        _ => Seq::empty(),
    }
}

/// The commands to run on connecting: those of the configured server, else those of the connection.
pub open spec fn autosend_of(config: Config, state: AppState, conn: Seq<char>) -> Option<Seq<char>> {
    let own = if state.connections@.contains_key(conn) {
        opt_text(state.connections@[conn].origin_config.autosendcmd)
    } else {
        None
    };
    match server_of(config, conn, 0) {
        Some(id) if config.servers@.contains_key(id) && config.servers@[id].autosendcmd is Some => opt_text(
            config.servers@[id].autosendcmd,
        ),
        _ => own,
    }
}

/// What a new connection leads to.
#[derive(Debug)]
pub struct Welcome {
    /// The channels that the connection was in before.
    pub rejoin: Vec<String>,
    /// The channels of the configuration, with their keys.
    pub configured: Vec<String>,
    /// The commands to run first.
    pub autosend: Option<String>,
    /// The network is another one than before.
    pub other_network: bool,
}

/// What a new connection leads to.
pub open spec fn welcome_of(w: Welcome, config: Config, state: AppState, conn: Seq<char>) -> bool {
    &&& texts(w.rejoin@) == rejoins(state, conn)
    &&& texts(w.configured@) == configured_channels(config, state, conn)
    &&& opt_text(w.autosend) == autosend_of(config, state, conn)
}

/// Works out what a new connection leads to.
fn plan_welcome(config: &Config, state: &AppState, conn: &str, other_network: bool) -> (r: Welcome)
    ensures
        welcome_of(r, *config, *state, conn@),
        r.other_network == other_network,
{
    let rejoin = channels_to_rejoin(state, conn);
    let explicit = match state.connections.get(conn) {
        Some(c) => c.bouncer_network_id().is_some() || c.bouncer_control(),
        None => false,
    };
    let own = match state.connections.get(conn) {
        Some(c) => c.origin_config.autosendcmd.clone(),
        None => None,
    };
    let mut configured: Vec<String> = Vec::new();
    let mut autosend = own;
    assert(texts(configured@) =~= Seq::<Seq<char>>::empty());
    match find_server(config, conn) {
        None => {},
        Some(id) => match config.servers.get(id.as_str()) {
            None => {},
            Some(server) => {
                if !explicit {
                    configured = copy_texts(&server.channels);
                }
                match &server.autosendcmd {
                    Some(cmds) => {
                        autosend = Some(cmds.clone());
                    },
                    None => {},
                }
            },
        },
    }
    Welcome { rejoin, configured, autosend, other_network }
}

/// A connection that is up, with what it agreed on with the server.
pub open spec fn agreed(before: AppState, after: AppState, conn: Seq<char>, caps: StrSet, multiline: Option<
    Limits,
>) -> bool {
    if before.connections@.contains_key(conn) {
        &&& after == (AppState { connections: after.connections, ..before })
        &&& after.connections@ == before.connections@.insert(
            conn,
            Connection { enabled_caps: caps, multiline, ..before.connections@[conn] },
        )
        &&& after.connections.keys() == before.connections.keys()
    } else {
        after == before
    }
}

/// A control connection has asked for its networks, where the bouncer does not tell them by itself.
pub open spec fn networks_asked(
    state: AppState,
    n0: Set<Seq<char>>,
    n1: Set<Seq<char>>,
    h0: Map<Seq<char>, IrcHandle>,
    h1: Map<Seq<char>, IrcHandle>,
    conn: Seq<char>,
) -> bool {
    if state.connections@.contains_key(conn) && state.connections@[conn].control() {
        &&& n1 == n0.insert(conn)
        &&& if !state.connections@[conn].enabled_caps@.contains(NETWORKS_NOTIFY_CAP@)
            && h0.contains_key(conn) {
            &&& h1 == h0.insert(conn, h1[conn])
            &&& handle_took(h0[conn], h1[conn], seq![untagged("BOUNCER"@, seq!["LISTNETWORKS"@])])
        } else {
            h1 == h0
        }
    } else {
        n1 == n0.remove(conn) && h1 == h0
    }
}

/// Asks a control connection for its networks.
fn ask_networks(
    state: &AppState,
    networks: &mut StrSet,
    handles: &mut StrMap<IrcHandle>,
    conn: &str,
)
    ensures
        networks_asked(
            *state,
            old(networks)@,
            final(networks)@,
            old(handles)@,
            final(handles)@,
            conn@,
        ),
        final(handles).keys() == old(handles).keys(),
{
    let ghost n0 = networks@;
    let _was = networks.remove(conn);
    let c = match state.connections.get(conn) {
        None => {
            return;
        },
        Some(c) => c,
    };
    if !c.bouncer_control() {
        return;
    }
    let _new = networks.insert(conn.to_string());
    assert(networks@ =~= n0.insert(conn@));
    if !c.enabled_caps.contains(NETWORKS_NOTIFY_CAP) {
        match handles.get_mut(conn) {
            None => {},
            Some(handle) => {
                let ghost s0 = handle.sender;
                let command = command1("BOUNCER", "LISTNETWORKS");
                let ghost cv = command@;
                let _sent = handle.sender.send(command);
                proof {
                    lemma_took_one(s0, handle.sender, cv);
                }
            },
        }
    }
}

/// The history of a connection cannot be asked for.
pub open spec fn history_out_of_reach(state: AppState, conn: Seq<char>) -> bool {
    &&& state.connections@.contains_key(conn)
    &&& state.connections@[conn].owns_history()
    &&& !state.connections@[conn].control()
    &&& !state.connections@[conn].enabled_caps@.contains("draft/chathistory"@)
}

/// A connection counts as up: nothing is wrong with it, it need not be tried again, and what it missed
/// ends now.
pub open spec fn up(before: AppState, after: AppState, conn: Seq<char>, now_ms: i64) -> bool {
    if before.connections@.contains_key(conn) {
        let d = after.connections@[conn];
        &&& after == (AppState { connections: after.connections, ..before })
        &&& after.connections.keys() == before.connections.keys()
        &&& after.connections@ == before.connections@.insert(conn, d)
        &&& d == (Connection {
            status: ConnectionStatus::Connected,
            error: None,
            reconnect_attempts: 0,
            next_reconnect: None,
            chathistory: d.chathistory,
            ..before.connections@[conn]
        })
        &&& d.chathistory.in_flight@ == Map::<Seq<char>, u64>::empty()
        &&& d.chathistory.exhausted@ == Set::<Seq<char>>::empty()
        &&& d.chathistory.closed@ == Set::<Seq<char>>::empty()
        &&& d.chathistory.gapfilled@ == Set::<Seq<char>>::empty()
        &&& d.chathistory.outcomes@ == Map::<Seq<char>, bool>::empty()
        &&& d.chathistory.gapfill_cutoff == Some(now_ms)
    } else {
        after == before
    }
}

/// The state after a connection came up: what was agreed on is kept, history that is out of reach is
/// told of, and the connection counts as up.
pub open spec fn came_up(
    before: AppState,
    after: AppState,
    noted_state: AppState,
    conn: Seq<char>,
    now_ms: i64,
) -> bool {
    &&& if history_out_of_reach(before, conn) {
        event_added(before, noted_state, status_buffer(before, conn), NO_CHATHISTORY@, now_ms)
    } else {
        noted_state == before
    }
    &&& up(noted_state, after, conn, now_ms)
}

/// A connection came up.
pub open spec fn connected_done(
    before: App,
    after: App,
    s0: Sessions,
    s1: Sessions,
    conn: Seq<char>,
    caps: StrSet,
    multiline: Option<Limits>,
    now_ms: i64,
    w: Welcome,
) -> bool {
    &&& s1 == (Sessions {
        monitors: s1.monitors,
        markers: s1.markers,
        presence: s1.presence,
        discovery: s1.discovery,
        networks: s1.networks,
        ..s0
    })
    &&& s1.discovery@ == s0.discovery@.remove(conn)
    &&& monitor_reset(s0.monitors@, s1.monitors@, conn)
    &&& markers_reconnected(s0.markers@, s1.markers@, before.state, conn, w.other_network)
    &&& after == (App { state: after.state, irc_handles: after.irc_handles, ..before })
    &&& after.irc_handles.keys() == before.irc_handles.keys()
    &&& exists|a: AppState, b: AppState|
        {
            &&& #[trigger] agreed(before.state, a, conn, caps, multiline)
            &&& presence_reconnected(s0.presence, s1.presence, a, conn)
            &&& networks_asked(
                a,
                s0.networks@,
                s1.networks@,
                before.irc_handles@,
                after.irc_handles@,
                conn,
            )
            &&& #[trigger] came_up(a, after.state, b, conn, now_ms)
            &&& welcome_of(w, before.config, b, conn)
        }
}

/// What a watch list was still to send is forgotten.
pub open spec fn monitor_reset(
    m0: Map<Seq<char>, MonitorState>,
    m1: Map<Seq<char>, MonitorState>,
    conn: Seq<char>,
) -> bool {
    if m0.contains_key(conn) {
        &&& m1 == m0.insert(conn, m1[conn])
        &&& m1[conn] == (MonitorState { outgoing: m1[conn].outgoing, ..m0[conn] })
        &&& m1[conn].outgoing@.len() == 0
    } else {
        m1 == m0
    }
}

/// Takes up that a connection came up. The commands of the result run first; then `join_channels` opens
/// the buffers of the channels and joins those that are not configured.
pub fn connected(
    app: &mut App,
    sessions: &mut Sessions,
    conn: &str,
    caps: StrSet,
    multiline: Option<Limits>,
    now_ms: i64,
) -> (r: Welcome)
    ensures
        connected_done(
            *old(app),
            *final(app),
            *old(sessions),
            *final(sessions),
            conn@,
            caps,
            multiline,
            now_ms,
            r,
        ),
{
    let ghost before = app.state;
    let ghost given = caps;
    reset_monitor(&mut sessions.monitors, conn);
    let other = reconnect_markers(&mut sessions.markers, &app.state, conn);
    let _gone = sessions.discovery.remove(conn);
    match app.state.connections.get_mut(conn) {
        None => {},
        Some(c) => {
            c.enabled_caps = caps;
            c.multiline = multiline;
        },
    }
    let ghost a = app.state;
    assert(agreed(before, a, conn@, given, multiline));
    sessions.presence.reconnect_bouncer_presence(&app.state, conn);
    ask_networks(&app.state, &mut sessions.networks, &mut app.irc_handles, conn);
    note_history(&mut app.state, conn, now_ms);
    let ghost b = app.state;
    let w = plan_welcome(&app.config, &app.state, conn, other);
    mark_up(&mut app.state, conn, now_ms);
    assert(came_up(a, app.state, b, conn@, now_ms));
    w
}

/// Tells of history that is out of reach.
fn note_history(state: &mut AppState, conn: &str, now_ms: i64)
    ensures
        if history_out_of_reach(*old(state), conn@) {
            event_added(
                *old(state),
                *final(state),
                status_buffer(*old(state), conn@),
                NO_CHATHISTORY@,
                now_ms,
            )
        } else {
            *final(state) == *old(state)
        },
{
    let buffer = match state.connections.get(conn) {
        None => {
            return;
        },
        Some(c) => {
            if !c.server_owns_history() || c.bouncer_control() || c.enabled_caps.contains(
                "draft/chathistory",
            ) {
                return;
            }
            make_buffer_id(conn, c.label.as_str())
        },
    };
    add_event_to_buffer(state, buffer.as_str(), NO_CHATHISTORY.to_string(), now_ms);
}

/// Counts a connection as up.
fn mark_up(state: &mut AppState, conn: &str, now_ms: i64)
    ensures
        up(*old(state), *final(state), conn@, now_ms),
{
    match state.connections.get_mut(conn) {
        None => {},
        Some(c) => {
            c.status = ConnectionStatus::Connected;
            c.error = None;
            c.reconnect_attempts = 0;
            c.next_reconnect = None;
            c.chathistory = ChatHistory::new();
            c.chathistory.gapfill_cutoff = Some(now_ms);
        },
    }
}

/// The name of a channel, without its key.
pub open spec fn channel_name(entry: Seq<char>) -> Seq<char> {
    match cut_first(entry, ' ') {
        Some(parts) => parts.0,
        None => entry,
    }
}

/// The name of a channel, without its key.
fn name_of(entry: &str) -> (r: String)
    ensures
        r@ == channel_name(entry@),
{
    match split_once(entry, ' ') {
        Some((name, _)) => name,
        None => entry.to_string(),
    }
}

/// A list names a channel, in whatever case.
pub open spec fn lists(list: Seq<Seq<char>>, channel: Seq<char>) -> bool {
    exists|i: int| 0 <= i < list.len() && lower_seq(#[trigger] list[i]) == lower_seq(channel)
}

/// Whether a list names a channel, in whatever case.
fn listed(list: &Vec<String>, channel: &str) -> (r: bool)
    ensures
        r == lists(texts(list@), channel@),
{
    let mut i: usize = 0;
    while i < list.len()
        invariant
            i <= list@.len(),
            forall|j: int| 0 <= j < i ==> lower_seq(#[trigger] texts(list@)[j]) != lower_seq(channel@),
        decreases list@.len() - i,
    {
        if same_ignoring_case(list[i].as_str(), channel) {
            assert(lower_seq(texts(list@)[i as int]) == lower_seq(channel@));
            return true;
        }
        i = i + 1;
    }
    false
}

/// The channels of the configuration and behind them those to join again that it does not name.
pub open spec fn all_channels(configured: Seq<Seq<char>>, rejoin: Seq<Seq<char>>) -> Seq<Seq<char>>
    decreases rejoin.len(),
{
    if rejoin.len() == 0 {
        configured
    } else {
        let init = all_channels(configured, rejoin.drop_last());
        if lists(init, rejoin.last()) {
            init
        } else {
            init.push(rejoin.last())
        }
    }
}

/// The names of channels, without their keys.
pub open spec fn channel_names(entries: Seq<Seq<char>>) -> Seq<Seq<char>> {
    entries.map_values(|e: Seq<char>| channel_name(e))
}

/// The channels to join again that the configuration does not name.
pub open spec fn extra_channels(configured: Seq<Seq<char>>, rejoin: Seq<Seq<char>>) -> Seq<Seq<char>>
    decreases rejoin.len(),
{
    if rejoin.len() == 0 {
        Seq::empty()
    } else {
        let init = extra_channels(configured, rejoin.drop_last());
        if lists(channel_names(configured), rejoin.last()) {
            init
        } else {
            init.push(rejoin.last())
        }
    }
}

/// Every channel has a buffer; those that were there stay as they are.
pub open spec fn channels_opened(
    before: AppState,
    after: AppState,
    conn: Seq<char>,
    entries: Seq<Seq<char>>,
) -> bool
    decreases entries.len(),
{
    if entries.len() == 0 {
        after == before
    } else {
        exists|middle: AppState|
            channels_opened(before, middle, conn, entries.drop_last()) && #[trigger] channel_opened(
                middle,
                after,
                conn,
                channel_name(entries.last()),
            )
    }
}

/// A channel has a buffer.
pub open spec fn channel_opened(before: AppState, after: AppState, conn: Seq<char>, name: Seq<char>) -> bool {
    if before.buffers@.contains_key(buffer_id_seq(conn, name)) {
        after == before
    } else {
        opened(before, after, conn, BufferType::Channel, name)
    }
}

/// The channels of the configuration and those to join again.
fn merge_channels(configured: &Vec<String>, rejoin: &Vec<String>) -> (r: Vec<String>)
    ensures
        texts(r@) == all_channels(texts(configured@), texts(rejoin@)),
{
    let ghost all = texts(rejoin@);
    let mut r = copy_texts(configured);
    let mut i: usize = 0;
    assert(all.take(0) =~= Seq::<Seq<char>>::empty());
    while i < rejoin.len()
        invariant
            i <= rejoin@.len(),
            all == texts(rejoin@),
            texts(r@) == all_channels(texts(configured@), all.take(i as int)),
        decreases rejoin@.len() - i,
    {
        assert(all.take(i + 1).drop_last() =~= all.take(i as int));
        assert(all.take(i + 1).last() == rejoin@[i as int]@);
        if !listed(&r, rejoin[i].as_str()) {
            let ghost was = texts(r@);
            r.push(rejoin[i].clone());
            assert(texts(r@) =~= was.push(all[i as int]));
        }
        i = i + 1;
    }
    assert(all.take(all.len() as int) =~= all);
    r
}

/// The names of channels, without their keys.
fn names_of(entries: &Vec<String>) -> (r: Vec<String>)
    ensures
        texts(r@) == channel_names(texts(entries@)),
{
    let mut r: Vec<String> = Vec::new();
    let mut i: usize = 0;
    while i < entries.len()
        invariant
            i <= entries@.len(),
            texts(r@) =~= channel_names(texts(entries@)).take(i as int),
        decreases entries@.len() - i,
    {
        let ghost was = texts(r@);
        let name = name_of(entries[i].as_str());
        let ghost nv = name@;
        r.push(name);
        assert(texts(r@) =~= was.push(nv));
        i = i + 1;
    }
    assert(texts(r@) =~= channel_names(texts(entries@)));
    r
}

/// The channels to join again that the configuration does not name.
fn extra_of(configured: &Vec<String>, rejoin: &Vec<String>) -> (r: Vec<String>)
    ensures
        texts(r@) == extra_channels(texts(configured@), texts(rejoin@)),
{
    let names = names_of(configured);
    let ghost all = texts(rejoin@);
    let mut r: Vec<String> = Vec::new();
    let mut i: usize = 0;
    assert(all.take(0) =~= Seq::<Seq<char>>::empty());
    assert(texts(r@) =~= Seq::<Seq<char>>::empty());
    while i < rejoin.len()
        invariant
            i <= rejoin@.len(),
            all == texts(rejoin@),
            texts(names@) == channel_names(texts(configured@)),
            texts(r@) == extra_channels(texts(configured@), all.take(i as int)),
        decreases rejoin@.len() - i,
    {
        assert(all.take(i + 1).drop_last() =~= all.take(i as int));
        assert(all.take(i + 1).last() == rejoin@[i as int]@);
        if !listed(&names, rejoin[i].as_str()) {
            let ghost was = texts(r@);
            r.push(rejoin[i].clone());
            assert(texts(r@) =~= was.push(all[i as int]));
        }
        i = i + 1;
    }
    assert(all.take(all.len() as int) =~= all);
    r
}

/// The ids of the buffers of channels.
pub open spec fn channel_buffers(conn: Seq<char>, entries: Seq<Seq<char>>) -> Seq<Seq<char>> {
    entries.map_values(|e: Seq<char>| buffer_id_seq(conn, channel_name(e)))
}

/// The channels of a new connection have buffers, and those that the configuration does not name are joined
/// again; `buffers` are those whose history is to be loaded.
pub open spec fn channels_joined(
    before: AppState,
    after: AppState,
    h0: Map<Seq<char>, IrcHandle>,
    h1: Map<Seq<char>, IrcHandle>,
    conn: Seq<char>,
    w: Welcome,
    buffers: Seq<Seq<char>>,
) -> bool {
    let configured = texts(w.configured@);
    let rejoin = texts(w.rejoin@);
    let extra = extra_channels(configured, rejoin);
    &&& channels_opened(before, after, conn, all_channels(configured, rejoin))
    &&& buffers == channel_buffers(conn, all_channels(configured, rejoin))
    &&& if extra.len() > 0 && h0.contains_key(conn) {
        &&& h1 == h0.insert(conn, h1[conn])
        &&& handle_took(h0[conn], h1[conn], seq![untagged("JOIN"@, seq![join_seq(extra, ","@)])])
    } else {
        h1 == h0
    }
}

/// Opens the buffers of the channels of a new connection, so that their list is stable from the start,
/// and joins the channels that the configuration does not name. Returns the buffers whose history is to
/// be loaded.
pub fn join_channels(
    state: &mut AppState,
    handles: &mut StrMap<IrcHandle>,
    conn: &str,
    w: &Welcome,
) -> (r: Vec<String>)
    ensures
        final(handles).keys() == old(handles).keys(),
        channels_joined(
            *old(state),
            *final(state),
            old(handles)@,
            final(handles)@,
            conn@,
            *w,
            texts(r@),
        ),
{
    let ghost before = *state;
    let entries = merge_channels(&w.configured, &w.rejoin);
    let ghost all = texts(entries@);
    let mut r: Vec<String> = Vec::new();
    let mut i: usize = 0;
    assert(all.take(0) =~= Seq::<Seq<char>>::empty());
    assert(texts(r@) =~= channel_buffers(conn@, all).take(0));
    while i < entries.len()
        invariant
            i <= entries@.len(),
            all == texts(entries@),
            channels_opened(before, *state, conn@, all.take(i as int)),
            texts(r@) == channel_buffers(conn@, all).take(i as int),
        decreases entries@.len() - i,
    {
        let ghost middle = *state;
        let ghost was = texts(r@);
        let name = name_of(entries[i].as_str());
        let id = make_buffer_id(conn, name.as_str());
        if !state.buffers.contains(id.as_str()) {
            open_buffer(state, conn, BufferType::Channel, name.as_str());
        }
        let ghost iv = id@;
        proof {
            assert(all.take(i + 1).drop_last() =~= all.take(i as int));
            assert(all.take(i + 1).last() == entries@[i as int]@);
            assert(channel_opened(middle, *state, conn@, channel_name(all.take(i + 1).last())));
        }
        r.push(id);
        assert(texts(r@) =~= was.push(iv));
        assert(texts(r@) =~= channel_buffers(conn@, all).take(i + 1));
        i = i + 1;
    }
    assert(all.take(all.len() as int) =~= all);
    assert(channel_buffers(conn@, all).take(all.len() as int) =~= channel_buffers(conn@, all));
    let extra = extra_of(&w.configured, &w.rejoin);
    assert(texts(extra@).len() == extra@.len());
    if extra.len() > 0 {
        match handles.get_mut(conn) {
            None => {},
            Some(handle) => {
                let ghost s0 = handle.sender;
                let command = command1("JOIN", join(&extra, ",").as_str());
                let ghost cv = command@;
                let _sent = handle.sender.send(command);
                proof {
                    lemma_took_one(s0, handle.sender, cv);
                }
            },
        }
    }
    r
}

/// A connection was lost: what belonged to its session is gone.
pub open spec fn disconnected_done(
    before: App,
    after: App,
    s0: Sessions,
    s1: Sessions,
    conn: Seq<char>,
    error: Option<Seq<char>>,
    retry: Option<u64>,
    now_ms: i64,
) -> bool {
    &&& s1 == (Sessions {
        searches: s1.searches,
        monitors: s1.monitors,
        discovery: s1.discovery,
        networks: s1.networks,
        lag_pings: s1.lag_pings,
        trackers: s1.trackers,
        labels: s1.labels,
        ..s0
    })
    &&& s1.searches == (Searches { pending: s1.searches.pending, ..s0.searches })
    &&& s1.searches.pending@ == s0.searches.pending@.remove(conn)
    &&& monitor_reset(s0.monitors@, s1.monitors@, conn)
    &&& s1.discovery@ == s0.discovery@.remove(conn)
    &&& s1.networks@ == s0.networks@.remove(conn)
    &&& s1.lag_pings@ == s0.lag_pings@.remove(conn)
    &&& s1.trackers@ == s0.trackers@.remove(conn)
    &&& s1.labels@ == s0.labels@.remove(conn)
    &&& after == (App { state: after.state, irc_handles: after.irc_handles, ..before })
    &&& after.irc_handles@ == before.irc_handles@.remove(conn)
    &&& after.irc_handles.keys() == without_key(before.irc_handles.keys(), conn)
    &&& exists|middle: AppState|
        {
            &&& if s0.searches.pending@.contains_key(conn) {
                noted(
                    s0.searches.views@,
                    before.state,
                    middle,
                    conn,
                    "Search interrupted by a connection change; submit a new request after reconnect"@,
                    now_ms,
                )
            } else {
                middle == before.state
            }
            &&& #[trigger] down(middle, after.state, conn, error, retry)
        }
}

/// A connection counts as down; it is tried again at a given time, where it is to be.
pub open spec fn down(
    before: AppState,
    after: AppState,
    conn: Seq<char>,
    error: Option<Seq<char>>,
    retry: Option<u64>,
) -> bool {
    if before.connections@.contains_key(conn) {
        let c = before.connections@[conn];
        let d = after.connections@[conn];
        &&& after == (AppState { connections: after.connections, ..before })
        &&& after.connections.keys() == before.connections.keys()
        &&& after.connections@ == before.connections@.insert(conn, d)
        &&& d == (Connection {
            status: if error is Some {
                ConnectionStatus::Error
            } else {
                ConnectionStatus::Disconnected
            },
            error: d.error,
            next_reconnect: if c.should_reconnect {
                retry
            } else {
                None
            },
            ..c
        })
        &&& opt_text(d.error) == error
    } else {
        after == before
    }
}

/// Counts a connection as down.
fn mark_down(state: &mut AppState, conn: &str, error: Option<String>, retry: Option<u64>)
    ensures
        down(*old(state), *final(state), conn@, opt_text(error), retry),
{
    match state.connections.get_mut(conn) {
        None => {},
        Some(c) => {
            c.status = if error.is_some() {
                ConnectionStatus::Error
            } else {
                ConnectionStatus::Disconnected
            };
            c.error = error;
            c.next_reconnect = if c.should_reconnect {
                retry
            } else {
                None
            };
        },
    }
}

/// Takes up that a connection was lost. `retry` is when it is tried again, in monotonic milliseconds.
pub fn disconnected(
    app: &mut App,
    sessions: &mut Sessions,
    conn: &str,
    error: Option<String>,
    retry: Option<u64>,
    now_ms: i64,
)
    ensures
        disconnected_done(
            *old(app),
            *final(app),
            *old(sessions),
            *final(sessions),
            conn@,
            opt_text(error),
            retry,
            now_ms,
        ),
{
    let ghost ev = opt_text(error);
    sessions.searches.reset_server_search(&mut app.state, conn, now_ms);
    reset_monitor(&mut sessions.monitors, conn);
    let _discovery = sessions.discovery.remove(conn);
    let _network = sessions.networks.remove(conn);
    let ghost middle = app.state;
    mark_down(&mut app.state, conn, error, retry);
    assert(down(middle, app.state, conn@, ev, retry));
    let _handle = app.irc_handles.remove(conn);
    let _ping = sessions.lag_pings.remove(conn);
    let _tracker = sessions.trackers.remove(conn);
    let _labels = sessions.labels.remove(conn);
}

/// An answer to a ping tells how slow the connection is.
pub open spec fn ponged(
    before: AppState,
    after: AppState,
    pings: Map<Seq<char>, Ping>,
    conn: Seq<char>,
    m: IrcMessageV,
    now: u64,
) -> bool {
    if m.command.verb == "PONG"@ && pings.contains_key(conn) && before.connections@.contains_key(conn) {
        &&& after == (AppState { connections: after.connections, ..before })
        &&& after.connections@ == before.connections@.insert(
            conn,
            Connection {
                lag_ms: Some(
                    if now > pings[conn].sent {
                        (now - pings[conn].sent) as u64
                    } else {
                        0
                    },
                ),
                lag_pending: false,
                ..before.connections@[conn]
            },
        )
        &&& after.connections.keys() == before.connections.keys()
    } else {
        after == before
    }
}

/// Takes up the answer to a ping.
pub fn note_pong(state: &mut AppState, pings: &StrMap<Ping>, conn: &str, m: &IrcMessage, now: u64)
    ensures
        ponged(*old(state), *final(state), pings@, conn@, m@, now),
{
    if !same(m.command.verb.as_str(), "PONG") {
        return;
    }
    let sent: u64 = match pings.get(conn) {
        None => {
            return;
        },
        Some(ping) => ping.sent,
    };
    match state.connections.get_mut(conn) {
        None => {},
        Some(c) => {
            c.lag_ms = Some(
                if now > sent {
                    now - sent
                } else {
                    0
                },
            );
            c.lag_pending = false;
        },
    }
}

/// What a server newly offers was asked for, all at once.
pub open spec fn caps_requested(
    h0: Map<Seq<char>, IrcHandle>,
    h1: Map<Seq<char>, IrcHandle>,
    conn: Seq<char>,
    caps: Seq<Seq<char>>,
) -> bool {
    if caps.len() > 0 && h0.contains_key(conn) {
        &&& h1 == h0.insert(conn, h1[conn])
        &&& handle_took(
            h0[conn],
            h1[conn],
            seq![untagged("CAP"@, seq!["REQ"@, join_seq(caps, " "@)])],
        )
    } else {
        h1 == h0
    }
}

/// Asks for what a server newly offers.
pub fn request_caps(handles: &mut StrMap<IrcHandle>, conn: &str, caps: &Vec<String>)
    ensures
        caps_requested(old(handles)@, final(handles)@, conn@, texts(caps@)),
        final(handles).keys() == old(handles).keys(),
{
    if caps.len() == 0 {
        return;
    }
    match handles.get_mut(conn) {
        None => {},
        Some(handle) => {
            let ghost s0 = handle.sender;
            let command = command2("CAP", "REQ", join(caps, " ").as_str());
            let ghost cv = command@;
            let _sent = handle.sender.send(command);
            proof {
                lemma_took_one(s0, handle.sender, cv);
            }
        },
    }
}

/// Where a message goes.
#[derive(Debug)]
pub enum Routed {
    /// It opened a batch.
    Opened,
    /// It closed a batch, which leads to an action; then the request with the label is answered.
    Closed { action: Option<BatchAction>, label: Option<String> },
    /// It was collected into a batch.
    Collected,
    /// It belongs to a batch that is not open, or is no batch command that makes sense.
    Ignored,
    /// It is handled now.
    Live(IrcMessage),
}

/// The rest of a text that begins with a mark.
pub open spec fn after_mark(s: Seq<char>, mark: char) -> Option<Seq<char>> {
    if s.len() > 0 && s[0] == mark {
        Some(s.skip(1))
    } else {
        None
    }
}

/// The rest of a text that begins with a mark.
fn strip_mark(s: &str, mark: char) -> (r: Option<String>)
    ensures
        opt_text(r) == after_mark(s@, mark),
{
    let v = chars_of(s);
    let n: usize = v.len();
    if n > 0 && v[0] == mark {
        let r = slice_text(&v, 1, n);
        assert(r@ =~= s@.skip(1));
        Some(r)
    } else {
        None
    }
}

/// The open batches of a connection.
pub open spec fn open_of(open: Map<Seq<char>, Map<Seq<char>, BatchV>>, conn: Seq<char>) -> Map<
    Seq<char>,
    BatchV,
> {
    if open.contains_key(conn) {
        open[conn]
    } else {
        Map::empty()
    }
}

/// A batch as a message opens it.
pub open spec fn batch_opened_by(m: CommandV, open: Map<Seq<char>, BatchV>, now: u64) -> BatchV {
    BatchV {
        kind: if m.params.len() > 1 {
            lower_seq(m.params[1])
        } else {
            Seq::empty()
        },
        params: if m.params.len() > 2 {
            m.params.skip(2)
        } else {
            Seq::empty()
        },
        opener: with_label(open, m).tags,
        messages: Seq::empty(),
        dropped: 0,
        started_at: now,
        spoiled: opens_spoiled(open, with_label(open, m).tags),
    }
}

/// The label of the request that a batch answers; a nested batch answers none.
pub open spec fn answered_label(b: BatchV) -> Option<Seq<char>> {
    if tag_value(b.opener, "batch"@) is None {
        tag_value(b.opener, "label"@)
    } else {
        None
    }
}

/// A message closed a batch that leads to something.
pub open spec fn acts(r: Routed) -> bool {
    match r {
        Routed::Closed { action: Some(_), .. } => true,
        _ => false,
    }
}

/// Where a message goes: batch commands open and close batches, what belongs to an open batch waits for
/// its end, and everything else is handled now. What belongs to a batch that is not open is never taken
/// for a live message, and a batch command inside what a server supports spoils that.
pub open spec fn routed(
    o0: Map<Seq<char>, Map<Seq<char>, BatchV>>,
    o1: Map<Seq<char>, Map<Seq<char>, BatchV>>,
    s0: AppState,
    s1: AppState,
    q0: Searches,
    q1: Searches,
    conn: Seq<char>,
    m: IrcMessageV,
    order: u64,
    channel_types: Seq<char>,
    now: Clock,
    r: Routed,
) -> bool {
    let c = m.command;
    let own = if c.verb == "BATCH"@ {
        spoil(open_of(o0, conn), c)
    } else {
        open_of(o0, conn)
    };
    let all = o0.insert(conn, own);
    &&& acts(r) || (s1 == s0 && q1 == q0)
    &&& if c.verb == "BATCH"@ && c.params.len() > 0 {
        match after_mark(c.params[0], '+') {
            Some(tag) => {
                &&& r is Opened
                &&& o1 == all.insert(conn, own.insert(tag, batch_opened_by(c, own, now.mono_ms)))
            },
            None => match after_mark(c.params[0], '-') {
                Some(tag) if own.contains_key(tag) => {
                    let b = own[tag];
                    let rest = all.insert(conn, own.remove(tag));
                    &&& r matches Routed::Closed { action, label }
                    &&& opt_text(label) == answered_label(b)
                    &&& match tag_value(b.opener, "batch"@) {
                        Some(parent) if live_kind(b.kind) => {
                            &&& action is None
                            &&& o1 == folded_into(rest, conn, parent, handed_on(b, true), b.dropped)
                        },
                        _ => {
                            &&& o1 == rest
                            &&& action matches Some(a) && batch_dispatched(
                                s0,
                                s1,
                                q0,
                                q1,
                                conn,
                                b,
                                true,
                                channel_types,
                                now,
                                a,
                            )
                        },
                    }
                },
                _ => r is Ignored && o1 == all,
            },
        }
    } else if c.verb == "BATCH"@ {
        r is Ignored && o1 == all
    } else {
        match tag_value(c.tags, "batch"@) {
            Some(tag) if own.contains_key(tag) => {
                &&& r is Collected
                &&& o1 == all.insert(
                    conn,
                    own.insert(
                        tag,
                        taken(
                            own[tag],
                            NumberedV {
                                order,
                                message: IrcMessageV { command: with_label(own, c), ..m },
                            },
                        ),
                    ),
                )
            },
            Some(_) => r is Ignored && o1 == all,
            None => {
                &&& o1 == all
                &&& r matches Routed::Live(live) && live@ == m
            },
        }
    }
}

/// The place of the next message of a connection.
pub open spec fn next_order(trackers: Map<Seq<char>, BatchTracker>, conn: Seq<char>) -> u64 {
    if trackers.contains_key(conn) {
        trackers[conn].next_order
    } else {
        0
    }
}

/// The place of the next message, where this one had the place `order` if it was collected.
pub open spec fn order_after(order: u64, r: Routed) -> u64 {
    if r is Collected {
        id_after(order)
    } else {
        order
    }
}

/// Finds where a message goes, and collects it where it belongs to a batch.
pub fn route_message(
    trackers: &mut StrMap<BatchTracker>,
    searches: &mut Searches,
    state: &mut AppState,
    conn: &str,
    message: IrcMessage,
    channel_types: &str,
    now: Clock,
) -> (r: Routed)
    ensures
        routed(
            all_batches(old(trackers)@),
            all_batches(final(trackers)@),
            *old(state),
            *final(state),
            *old(searches),
            *final(searches),
            conn@,
            message@,
            next_order(old(trackers)@, conn@),
            channel_types@,
            now,
            r,
        ),
        orders(final(trackers)@) == orders(old(trackers)@).insert(
            conn@,
            order_after(next_order(old(trackers)@, conn@), r),
        ),
{
    let ghost places = orders(trackers@);
    let ghost order = next_order(trackers@, conn@);
    let ghost o0 = all_batches(trackers@);
    let ghost own = open_of(o0, conn@);
    let ghost all = o0.insert(conn@, own);
    if !trackers.contains(conn) {
        trackers.insert(conn.to_string(), BatchTracker::new());
        assert(all_batches(trackers@) =~= all);
    }
    assert(all_batches(trackers@) =~= all);
    assert(orders(trackers@) =~= places.insert(conn@, order));
    if same(message.command.verb.as_str(), "BATCH") {
        assert(all.insert(conn@, own) =~= all);
        assert(open_of(all, conn@) == own);
        return route_batch(trackers, searches, state, conn, message, channel_types, now);
    }
    let batched = match trackers.get(conn) {
        Some(t) => {
            assert(t.batches() == own);
            t.is_batched(&message)
        },
        None => false,
    };
    if batched {
        let ghost mv = message@;
        let mut message = message;
        match trackers.get_mut(conn) {
            None => {},
            Some(t) => {
                t.inherit_label(&mut message);
                proof {
                    lemma_label_keeps_batch(own, mv.command);
                }
                t.add_message(message);
            },
        }
        proof {
            let tag = tag_value(mv.command.tags, "batch"@)->0;
            assert(all_batches(trackers@) =~= all.insert(conn@, trackers@[conn@].batches()));
            assert(orders(trackers@) =~= places.insert(conn@, id_after(order)));
        }
        return Routed::Collected;
    }
    if tag_text(&message.command.tags, "batch").is_some() {
        return Routed::Ignored;
    }
    Routed::Live(message)
}

/// A label does not change the batch that a message belongs to.
proof fn lemma_label_keeps_batch(open: Map<Seq<char>, BatchV>, c: CommandV)
    ensures
        tag_value(with_label(open, c).tags, "batch"@) == tag_value(c.tags, "batch"@),
{
    let d = with_label(open, c);
    if d != c {
        let t = d.tags.last();
        assert(d.tags =~= c.tags.push(t));
        lemma_tag_pushed(c.tags, t, "batch"@, 0);
        assert(t.key == "label"@);
        reveal_strlit("label");
        reveal_strlit("batch");
        assert("label"@[0] == 'l' && "batch"@[0] == 'b');
    }
}

/// A tag of another name does not change the value of a tag.
proof fn lemma_tag_pushed(tags: Seq<TagV>, t: TagV, key: Seq<char>, i: int)
    requires
        0 <= i <= tags.len(),
    ensures
        t.key != key ==> crate::batch::tag_from(tags.push(t), key, i) == crate::batch::tag_from(
            tags,
            key,
            i,
        ),
    decreases tags.len() - i,
{
    if i < tags.len() {
        lemma_tag_pushed(tags, t, key, i + 1);
        assert(tags.push(t)[i] == tags[i]);
    } else {
        assert(tags.push(t)[i] == t);
        assert(crate::batch::tag_from(tags.push(t), key, i + 1) is None);
    }
}

/// Opens or closes a batch.
fn route_batch(
    trackers: &mut StrMap<BatchTracker>,
    searches: &mut Searches,
    state: &mut AppState,
    conn: &str,
    message: IrcMessage,
    channel_types: &str,
    now: Clock,
) -> (r: Routed)
    requires
        old(trackers)@.contains_key(conn@),
        message@.command.verb == "BATCH"@,
    ensures
        routed(
            all_batches(old(trackers)@),
            all_batches(final(trackers)@),
            *old(state),
            *final(state),
            *old(searches),
            *final(searches),
            conn@,
            message@,
            0,
            channel_types@,
            now,
            r,
        ),
        r !is Collected,
        orders(final(trackers)@) == orders(old(trackers)@),
{
    let ghost places = orders(trackers@);
    let ghost given = all_batches(trackers@);
    let ghost mv = message@;
    match trackers.get_mut(conn) {
        None => {},
        Some(t) => {
            assert(t.batches() == open_of(given, conn@));
            t.invalidate_isupport_parent(&message);
        },
    }
    let ghost o0 = all_batches(trackers@);
    let ghost own = spoil(open_of(given, conn@), mv.command);
    assert(own == trackers@[conn@].batches());
    assert(o0 =~= given.insert(conn@, own));
    assert(o0.insert(conn@, own) =~= o0);
    assert(orders(trackers@) =~= places);
    assert(mv.command.params.len() == message.command.params@.len());
    let n: usize = message.command.params.len();
    if n == 0 {
        return Routed::Ignored;
    }
    assert(mv.command.params[0] == message.command.params@[0]@);
    let start = strip_mark(message.command.params[0].as_str(), '+');
    match start {
        Some(tag) => {
            let mut message = message;
            match trackers.get_mut(conn) {
                None => {},
                Some(t) => {
                    t.inherit_label(&mut message);
                    assert(message@.command.params == mv.command.params);
                    let kind = if n > 1 {
                        assert(message@.command.params[1] == message.command.params@[1]@);
                        message.command.params[1].clone()
                    } else {
                        String::new()
                    };
                    let params = params_from(&message.command.params, 2);
                    proof {
                        if n <= 1 {
                            assert(lower_seq(kind@) =~= Seq::<char>::empty());
                        }
                    }
                    t.start_batch(tag.as_str(), kind.as_str(), params, message.command.tags, now.mono_ms);
                },
            }
            proof {
                let b = batch_opened_by(mv.command, own, now.mono_ms);
                assert(trackers@[conn@].batches()[tag@] =~= b);
                assert(trackers@[conn@].batches() =~= own.insert(tag@, b));
                assert(all_batches(trackers@) =~= o0.insert(conn@, own.insert(tag@, b)));
                assert(orders(trackers@) =~= places);
            }
            Routed::Opened
        },
        None => {
            let tag = match strip_mark(message.command.params[0].as_str(), '-') {
                None => {
                    return Routed::Ignored;
                },
                Some(tag) => tag,
            };
            let ended = match trackers.get_mut(conn) {
                None => None,
                Some(t) => t.end_batch(tag.as_str()),
            };
            assert(all_batches(trackers@) =~= o0.insert(conn@, own.remove(tag@)));
            assert(orders(trackers@) =~= places);
            match ended {
                None => {
                    assert(own.remove(tag@) =~= own);
                    Routed::Ignored
                },
                Some(batch) => close_batch(trackers, searches, state, conn, batch, channel_types, now),
            }
        },
    }
}

/// The parameters from a position on.
fn params_from(params: &Vec<String>, from: usize) -> (r: Vec<String>)
    ensures
        texts(r@) == (if params@.len() > from {
            texts(params@).skip(from as int)
        } else {
            Seq::empty()
        }),
{
    let mut r: Vec<String> = Vec::new();
    let n: usize = params.len();
    if n <= from {
        assert(texts(r@) =~= Seq::<Seq<char>>::empty());
        return r;
    }
    let mut i: usize = from;
    while i < n
        invariant
            n == params@.len(),
            from <= i <= n,
            texts(r@) =~= texts(params@).subrange(from as int, i as int),
        decreases n - i,
    {
        let ghost was = texts(r@);
        r.push(params[i].clone());
        assert(texts(r@) =~= was.push(texts(params@)[i as int]));
        i = i + 1;
    }
    assert(texts(r@) =~= texts(params@).skip(from as int));
    r
}

/// Takes up a batch that the server closed.
fn close_batch(
    trackers: &mut StrMap<BatchTracker>,
    searches: &mut Searches,
    state: &mut AppState,
    conn: &str,
    batch: BatchInfo,
    channel_types: &str,
    now: Clock,
) -> (r: Routed)
    ensures
        r matches Routed::Closed { action, label } && opt_text(label) == answered_label(batch@)
            && match tag_value(batch@.opener, "batch"@) {
            Some(parent) if live_kind(batch@.kind) => {
                &&& action is None
                &&& *final(state) == *old(state)
                &&& *final(searches) == *old(searches)
                &&& all_batches(final(trackers)@) == folded_into(
                    all_batches(old(trackers)@),
                    conn@,
                    parent,
                    handed_on(batch@, true),
                    batch.dropped,
                )
            },
            _ => {
                &&& *final(trackers) == *old(trackers)
                &&& action matches Some(a) && batch_dispatched(
                    *old(state),
                    *final(state),
                    *old(searches),
                    *final(searches),
                    conn@,
                    batch@,
                    true,
                    channel_types@,
                    now,
                    a,
                )
            },
        },
        orders(final(trackers)@) == orders(old(trackers)@),
{
    let label = if batch.parent_ref().is_none() {
        match tag_text(&batch.opener, "label") {
            Some(label) => Some(label.clone()),
            None => None,
        }
    } else {
        None
    };
    let action = receive_completed_batch(trackers, searches, state, conn, batch, channel_types, now);
    Routed::Closed { action, label }
}

/// What is left to do after an event.
#[derive(Debug)]
pub enum EventStep {
    /// The event was of an attempt that was given up.
    Stale,
    /// Nothing is left.
    Done,
    /// The connection was lost: its queries about channels are still to be dropped, and what waits for a
    /// translation on it is still to be released.
    Lost(String),
    /// The commands run, and then the channels are joined.
    Welcomed(String, Welcome),
    /// The message, or the batch that it closed, is still to be dispatched.
    Received(String, Routed),
}

/// A message about capabilities makes its change, and what the server newly offers is asked for.
pub open spec fn caps_changed(
    s0: AppState,
    s1: AppState,
    h0: StrMap<IrcHandle>,
    h1: StrMap<IrcHandle>,
    conn: Seq<char>,
    c: CommandV,
    change: Option<CapChange>,
) -> bool {
    match change {
        Some(change) if c.verb == "CAP"@ => {
            &&& match change.enabled {
                Some(caps) if s0.connections@.contains_key(conn) => {
                    &&& s1 == (AppState { connections: s1.connections, ..s0 })
                    &&& s1.connections.keys() == s0.connections.keys()
                    &&& s1.connections@ == s0.connections@.insert(
                        conn,
                        Connection { enabled_caps: caps, ..s0.connections@[conn] },
                    )
                },
                _ => s1 == s0,
            }
            &&& caps_requested(h0@, h1@, conn, texts(change.requested@))
            &&& h1.keys() == h0.keys()
        },
        _ => s1 == s0 && h1 == h0,
    }
}

/// A message arrived: an answer to a ping tells the lag, a message about capabilities makes its change
/// and then answered requests are looked through, and the message goes where it belongs.
pub open spec fn message_received(
    before: App,
    after: App,
    s0: Sessions,
    s1: Sessions,
    conn: Seq<char>,
    m: IrcMessageV,
    change: Option<CapChange>,
    channel_types: Seq<char>,
    now: Clock,
    r: Routed,
) -> bool {
    exists|pong: AppState, caps: AppState|
        {
            &&& ponged(before.state, pong, s0.lag_pings@, conn, m, now.mono_ms)
            &&& #[trigger] caps_changed(
                pong,
                caps,
                before.irc_handles,
                after.irc_handles,
                conn,
                m.command,
                change,
            )
            &&& after == (App { state: after.state, irc_handles: after.irc_handles, ..before })
            &&& s1 == (Sessions {
                trackers: s1.trackers,
                labels: s1.labels,
                searches: s1.searches,
                ..s0
            })
            &&& if m.command.verb == "CAP"@ {
                labels_ticked(s0.labels@, s1.labels@, caps, now.mono_ms)
            } else {
                s1.labels == s0.labels
            }
            &&& routed(
                all_batches(s0.trackers@),
                all_batches(s1.trackers@),
                caps,
                after.state,
                s0.searches,
                s1.searches,
                conn,
                m,
                next_order(s0.trackers@, conn),
                channel_types,
                now,
                r,
            )
            &&& orders(s1.trackers@) == orders(s0.trackers@).insert(
                conn,
                order_after(next_order(s0.trackers@, conn), r),
            )
        }
}

/// Takes up a message that arrived.
fn receive_message(
    app: &mut App,
    sessions: &mut Sessions,
    conn: &str,
    message: IrcMessage,
    change: Option<CapChange>,
    channel_types: &str,
    now: Clock,
) -> (r: Routed)
    ensures
        message_received(
            *old(app),
            *final(app),
            *old(sessions),
            *final(sessions),
            conn@,
            message@,
            change,
            channel_types@,
            now,
            r,
        ),
{
    let ghost before = *app;
    let ghost given = change;
    note_pong(&mut app.state, &sessions.lag_pings, conn, &message, now.mono_ms);
    let ghost pong = app.state;
    if same(message.command.verb.as_str(), "CAP") {
        match change {
            None => {},
            Some(CapChange { enabled, requested }) => {
                match enabled {
                    None => {},
                    Some(caps) => match app.state.connections.get_mut(conn) {
                        None => {},
                        Some(c) => {
                            c.enabled_caps = caps;
                        },
                    },
                }
                request_caps(&mut app.irc_handles, conn, &requested);
            },
        }
        tick_labels(&mut sessions.labels, &app.state, now.mono_ms);
    }
    let ghost caps = app.state;
    assert(caps_changed(
        pong,
        caps,
        before.irc_handles,
        app.irc_handles,
        conn@,
        message@.command,
        given,
    ));
    route_message(
        &mut sessions.trackers,
        &mut sessions.searches,
        &mut app.state,
        conn,
        message,
        channel_types,
        now,
    )
}

/// What an event leads to. Only the event that counts has any effect.
pub open spec fn event_handled(
    before: App,
    after: App,
    s0: Sessions,
    s1: Sessions,
    event: IrcEvent,
    account: Seq<char>,
    retry: Option<u64>,
    channel_types: Seq<char>,
    now: Clock,
    r: EventStep,
) -> bool {
    match counting(s0.attempts@, event) {
        None => r is Stale && after == before && s1 == s0,
        Some(IrcEvent::Attempt(..)) => false,
        Some(IrcEvent::HandleReady(conn, handle)) => {
            &&& r is Done
            &&& handle_ready_done(before, after, s0, s1, account, conn@, handle, now.utc_ms)
        },
        Some(IrcEvent::NegotiationInfo(conn, lines)) => {
            &&& r is Done
            &&& s1 == s0
            &&& after == (App { state: after.state, ..before })
            &&& negotiation_shown(
                before.state,
                after.state,
                status_buffer(before.state, conn@),
                texts(lines@),
                now.utc_ms,
            )
        },
        Some(IrcEvent::Connected(conn, caps, multiline)) => {
            &&& r matches EventStep::Welcomed(id, w)
            &&& id@ == conn@
            &&& connected_done(before, after, s0, s1, conn@, caps, multiline, now.utc_ms, w)
        },
        Some(IrcEvent::Disconnected(conn, error)) => {
            &&& r matches EventStep::Lost(id) && id@ == conn@
            &&& disconnected_done(
                before,
                after,
                s0,
                s1,
                conn@,
                opt_text(error),
                retry,
                now.utc_ms,
            )
        },
        Some(IrcEvent::Message(conn, message)) => {
            &&& r matches EventStep::Received(id, routed_to) && id@ == conn@ && message_received(
                before,
                after,
                s0,
                s1,
                conn@,
                message@,
                None,
                channel_types,
                now,
                routed_to,
            )
        },
        Some(IrcEvent::Cap(conn, message, change)) => {
            &&& r matches EventStep::Received(id, routed_to) && id@ == conn@ && message_received(
                before,
                after,
                s0,
                s1,
                conn@,
                message@,
                Some(change),
                channel_types,
                now,
                routed_to,
            )
        },
    }
}

/// Handles what happened on a connection. `account` is the bouncer account whose network the connection
/// is, `retry` is when a lost connection is tried again, and `channel_types` is what the names of channels
/// begin with there.
pub fn handle_irc_event(
    app: &mut App,
    sessions: &mut Sessions,
    event: IrcEvent,
    account: &str,
    retry: Option<u64>,
    channel_types: &str,
    now: Clock,
) -> (r: EventStep)
    ensures
        event_handled(
            *old(app),
            *final(app),
            *old(sessions),
            *final(sessions),
            event,
            account@,
            retry,
            channel_types@,
            now,
            r,
        ),
{
    let ghost whole = event;
    let event = match current_event(&sessions.attempts, event) {
        None => {
            return EventStep::Stale;
        },
        Some(event) => event,
    };
    proof {
        lemma_counting_is_plain(sessions.attempts@, whole);
    }
    match event {
        IrcEvent::Attempt(_, _, _) => EventStep::Stale,
        IrcEvent::HandleReady(conn, handle) => {
            handle_ready(app, sessions, account, conn.as_str(), handle, now.utc_ms);
            EventStep::Done
        },
        IrcEvent::NegotiationInfo(conn, lines) => {
            negotiation_info(&mut app.state, conn.as_str(), &lines, now.utc_ms);
            EventStep::Done
        },
        IrcEvent::Connected(conn, caps, multiline) => {
            let w = connected(app, sessions, conn.as_str(), caps, multiline, now.utc_ms);
            EventStep::Welcomed(conn, w)
        },
        IrcEvent::Disconnected(conn, error) => {
            disconnected(app, sessions, conn.as_str(), error, retry, now.utc_ms);
            EventStep::Lost(conn)
        },
        IrcEvent::Message(conn, message) => {
            let routed_to = receive_message(app, sessions, conn.as_str(), message, None, channel_types, now);
            EventStep::Received(conn, routed_to)
        },
        IrcEvent::Cap(conn, message, change) => {
            let routed_to = receive_message(
                app,
                sessions,
                conn.as_str(),
                message,
                Some(change),
                channel_types,
                now,
            );
            EventStep::Received(conn, routed_to)
        },
    }
}

/// The event that counts is not wrapped any more.
proof fn lemma_counting_is_plain(attempts: Map<Seq<char>, u64>, event: IrcEvent)
    ensures
        counting(attempts, event) matches Some(e) ==> e !is Attempt,
    decreases event,
{
    if let IrcEvent::Attempt(_, _, inner) = event {
        lemma_counting_is_plain(attempts, *inner);
    }
}

/// Nothing that belongs to a batch is handled as a live message while it arrives.
pub proof fn batched_messages_wait(
    o0: Map<Seq<char>, Map<Seq<char>, BatchV>>,
    o1: Map<Seq<char>, Map<Seq<char>, BatchV>>,
    s0: AppState,
    s1: AppState,
    q0: Searches,
    q1: Searches,
    conn: Seq<char>,
    m: IrcMessageV,
    order: u64,
    channel_types: Seq<char>,
    now: Clock,
    r: Routed,
)
    requires
        routed(o0, o1, s0, s1, q0, q1, conn, m, order, channel_types, now, r),
        tag_value(m.command.tags, "batch"@) is Some,
    ensures
        r !is Live,
{
}

/// An event of an attempt that was given up changes nothing.
pub proof fn stale_attempts_do_not_count(
    attempts: Map<Seq<char>, u64>,
    id: String,
    generation: u64,
    inner: IrcEvent,
)
    requires
        !attempts.contains_key(id@) || attempts[id@] != generation,
    ensures
        counting(attempts, IrcEvent::Attempt(id, generation, Box::new(inner))) is None,
{
}

/// A connection that is bound to a bouncer's network joins no channel by itself, neither one that it was
/// in before nor one of the configuration.
pub proof fn bound_connections_join_nothing(config: Config, state: AppState, conn: Seq<char>, w: Welcome)
    requires
        welcome_of(w, config, state, conn),
        state.connections@.contains_key(conn),
        state.connections@[conn].network_id() is Some || state.connections@[conn].control(),
    ensures
        all_channels(texts(w.configured@), texts(w.rejoin@)).len() == 0,
        extra_channels(texts(w.configured@), texts(w.rejoin@)).len() == 0,
{
}

/// Every channel to join again is among all channels, and named by the configuration or joined.
proof fn lemma_channels(configured: Seq<Seq<char>>, rejoin: Seq<Seq<char>>)
    ensures
        configured.is_prefix_of(all_channels(configured, rejoin)),
        forall|i: int|
            0 <= i < rejoin.len() ==> lists(all_channels(configured, rejoin), #[trigger] rejoin[i]) && (lists(
                channel_names(configured),
                rejoin[i],
            ) || extra_channels(configured, rejoin).contains(rejoin[i])),
        forall|i: int|
            0 <= i < extra_channels(configured, rejoin).len() ==> rejoin.contains(
                #[trigger] extra_channels(configured, rejoin)[i],
            ) && !lists(channel_names(configured), extra_channels(configured, rejoin)[i]),
    decreases rejoin.len(),
{
    let all = all_channels(configured, rejoin);
    let extra = extra_channels(configured, rejoin);
    if rejoin.len() == 0 {
        assert(configured =~= all.subrange(0, configured.len() as int));
    } else {
        let rest = rejoin.drop_last();
        let last = rejoin.last();
        let init = all_channels(configured, rest);
        let few = extra_channels(configured, rest);
        lemma_channels(configured, rest);
        assert(configured =~= all.subrange(0, configured.len() as int)) by {
            assert(configured =~= init.subrange(0, configured.len() as int));
        }
        assert forall|i: int| 0 <= i < rejoin.len() implies lists(all, #[trigger] rejoin[i]) && (lists(
            channel_names(configured),
            rejoin[i],
        ) || extra.contains(rejoin[i])) by {
            if i < rest.len() {
                assert(rest[i] == rejoin[i]);
                let k = choose|k: int| 0 <= k < init.len() && lower_seq(#[trigger] init[k]) == lower_seq(rest[i]);
                assert(all[k] == init[k]);
                if few.contains(rest[i]) {
                    let q = few.index_of(rest[i]);
                    assert(extra[q] == rest[i]);
                }
            } else {
                if lists(init, last) {
                    let k = choose|k: int| 0 <= k < init.len() && lower_seq(#[trigger] init[k]) == lower_seq(last);
                    assert(all[k] == init[k]);
                } else {
                    assert(all[all.len() - 1] == last);
                }
                if !lists(channel_names(configured), last) {
                    assert(extra[extra.len() - 1] == last);
                }
            }
        }
        assert forall|i: int| 0 <= i < extra.len() implies rejoin.contains(#[trigger] extra[i]) && !lists(
            channel_names(configured),
            extra[i],
        ) by {
            if i < few.len() {
                assert(extra[i] == few[i]);
                assert(rest.contains(few[i]));
                assert(rejoin[rest.index_of(few[i])] == few[i]);
            } else {
                assert(rejoin[rejoin.len() - 1] == last);
            }
        }
    }
}

/// Opened channels have buffers, and nothing that was there is gone.
proof fn lemma_channels_opened(before: AppState, after: AppState, conn: Seq<char>, entries: Seq<Seq<char>>)
    requires
        channels_opened(before, after, conn, entries),
    ensures
        forall|i: int|
            0 <= i < entries.len() ==> after.buffers@.contains_key(
                buffer_id_seq(conn, channel_name(#[trigger] entries[i])),
            ),
        forall|k: Seq<char>| #[trigger] before.buffers@.contains_key(k) ==> after.buffers@.contains_key(k),
        after.connections == before.connections,
    decreases entries.len(),
{
    if entries.len() > 0 {
        let rest = entries.drop_last();
        let name = channel_name(entries.last());
        let middle = choose|middle: AppState|
            channels_opened(before, middle, conn, rest) && #[trigger] channel_opened(middle, after, conn, name);
        lemma_channels_opened(before, middle, conn, rest);
        assert forall|i: int| 0 <= i < entries.len() implies after.buffers@.contains_key(
            buffer_id_seq(conn, channel_name(#[trigger] entries[i])),
        ) by {
            if i < rest.len() {
                assert(rest[i] == entries[i]);
                assert(middle.buffers@.contains_key(buffer_id_seq(conn, channel_name(rest[i]))));
            }
        }
    }
}

/// Channels survive a reconnection. Every channel that a connection was in has a buffer again once it is up,
/// and is joined again, unless the configuration names it, whose channels are joined anyway; every channel of
/// the configuration has a buffer, too, and no other channel is joined.
pub proof fn channels_survive_a_reconnection(
    config: Config,
    up: AppState,
    before: AppState,
    after: AppState,
    h0: Map<Seq<char>, IrcHandle>,
    h1: Map<Seq<char>, IrcHandle>,
    conn: Seq<char>,
    w: Welcome,
    buffers: Seq<Seq<char>>,
    channel: Seq<char>,
)
    requires
        welcome_of(w, config, up, conn),
        channels_joined(before, after, h0, h1, conn, w, buffers),
        up.connections@.contains_key(conn),
        up.connections@[conn].network_id() is None,
        !up.connections@[conn].control(),
        texts(up.connections@[conn].joined_channels@).contains(channel),
        forall|i: int|
            0 <= i < up.connections@[conn].joined_channels@.len() ==> !(#[trigger] texts(
                up.connections@[conn].joined_channels@,
            )[i]).contains(','),
        h0.contains_key(conn),
        h0[conn].sender.room is None,
    ensures
        exists|e: Seq<char>| #[trigger]
            lower_seq(e) == lower_seq(channel) && after.buffers@.contains_key(buffer_id_seq(conn, channel_name(e)))
                && buffers.contains(buffer_id_seq(conn, channel_name(e))),
        !lists(channel_names(texts(w.configured@)), channel) ==> ({
            let sent = h1[conn].sender.accepted();
            &&& sent.len() == h0[conn].sender.accepted().len() + 1
            &&& sent.last().verb == "JOIN"@
            &&& sent.last().params.len() == 1
            &&& pieces(sent.last().params[0], ',').contains(channel)
            &&& forall|i: int|
                0 <= i < pieces(sent.last().params[0], ',').len() ==> texts(
                    up.connections@[conn].joined_channels@,
                ).contains(#[trigger] pieces(sent.last().params[0], ',')[i])
        }),
        forall|i: int|
            0 <= i < w.configured@.len() ==> after.buffers@.contains_key(
                buffer_id_seq(conn, channel_name(#[trigger] texts(w.configured@)[i])),
            ),
{
    let configured = texts(w.configured@);
    let rejoin = texts(w.rejoin@);
    let all = all_channels(configured, rejoin);
    let extra = extra_channels(configured, rejoin);
    lemma_channels(configured, rejoin);
    lemma_channels_opened(before, after, conn, all);
    let j = rejoin.index_of(channel);
    assert(rejoin[j] == channel);
    assert(lists(all, channel));
    let k = choose|k: int| 0 <= k < all.len() && lower_seq(#[trigger] all[k]) == lower_seq(channel);
    assert(after.buffers@.contains_key(buffer_id_seq(conn, channel_name(all[k]))));
    assert(channel_buffers(conn, all)[k] == buffer_id_seq(conn, channel_name(all[k])));
    assert(lower_seq(all[k]) == lower_seq(channel));
    if !lists(channel_names(configured), channel) {
        reveal_strlit(",");
        assert(","@ =~= seq![',']);
        assert(extra.contains(channel));
        assert forall|i: int| 0 <= i < extra.len() implies !(#[trigger] extra[i]).contains(',') by {
            let q = rejoin.index_of(extra[i]);
            assert(rejoin.contains(extra[i]));
            assert(rejoin[q] == extra[i]);
        }
        joined_texts_part_again(extra, ',');
        let one = seq![untagged("JOIN"@, seq![join_seq(extra, ","@)])];
        assert(one.take(1) =~= one);
        assert(h1[conn].sender.accepted().last() == one[0]);
    }
    assert forall|i: int| 0 <= i < w.configured@.len() implies after.buffers@.contains_key(
        buffer_id_seq(conn, channel_name(#[trigger] texts(w.configured@)[i])),
    ) by {
        assert(all[i] == configured[i]);
    }
}

/// What belongs to no batch is handled at once and as it came, and no open batch changes.
pub proof fn messages_are_handled_at_once(
    o0: Map<Seq<char>, Map<Seq<char>, BatchV>>,
    o1: Map<Seq<char>, Map<Seq<char>, BatchV>>,
    s0: AppState,
    s1: AppState,
    q0: Searches,
    q1: Searches,
    conn: Seq<char>,
    m: IrcMessageV,
    order: u64,
    channel_types: Seq<char>,
    now: Clock,
    r: Routed,
    other: Seq<char>,
)
    requires
        routed(o0, o1, s0, s1, q0, q1, conn, m, order, channel_types, now, r),
        m.command.verb != "BATCH"@,
        tag_value(m.command.tags, "batch"@) is None,
    ensures
        r is Live && r->0@ == m,
        s1 == s0 && q1 == q0,
        o0.contains_key(other) ==> o1.contains_key(other) && o1[other] == o0[other],
{
}

/// What comes in a batch is handled when the batch ends. A batch of a live kind that is opened, gets a message
/// and is closed hands that message on, as it was said and with the label of the request that the batch
/// answers; until then nothing is done with it, and afterwards the batch is gone.
pub proof fn batches_are_handled_when_they_end(
    o0: Map<Seq<char>, Map<Seq<char>, BatchV>>,
    o1: Map<Seq<char>, Map<Seq<char>, BatchV>>,
    o2: Map<Seq<char>, Map<Seq<char>, BatchV>>,
    o3: Map<Seq<char>, Map<Seq<char>, BatchV>>,
    s0: AppState,
    s1: AppState,
    s2: AppState,
    s3: AppState,
    q0: Searches,
    q1: Searches,
    q2: Searches,
    q3: Searches,
    conn: Seq<char>,
    begin: IrcMessageV,
    m: IrcMessageV,
    end: IrcMessageV,
    order: u64,
    channel_types: Seq<char>,
    now: Clock,
    r1: Routed,
    r2: Routed,
    r3: Routed,
    tag: Seq<char>,
)
    requires
        routed(o0, o1, s0, s1, q0, q1, conn, begin, order, channel_types, now, r1),
        routed(o1, o2, s1, s2, q1, q2, conn, m, order, channel_types, now, r2),
        routed(o2, o3, s2, s3, q2, q3, conn, end, order, channel_types, now, r3),
        begin.command.verb == "BATCH"@,
        begin.command.params.len() >= 2,
        begin.command.params[0] == seq!['+'] + tag,
        live_kind(lower_seq(begin.command.params[1])),
        lower_seq(begin.command.params[1]) != "draft/multiline"@,
        tag_value(begin.command.tags, "batch"@) is None,
        m.command.verb != "BATCH"@,
        tag_value(m.command.tags, "batch"@) == Some(tag),
        end.command.verb == "BATCH"@,
        end.command.params.len() > 0,
        end.command.params[0] == seq!['-'] + tag,
        tag_value(end.command.tags, "batch"@) is None,
    ensures
        r1 is Opened,
        r2 is Collected,
        s1 == s0 && s2 == s0 && s3 == s0,
        r3 is Closed,
        opt_text(r3->label) == tag_value(begin.command.tags, "label"@),
        r3->action is Some,
        r3->action->0 is Live,
        ({
            let list = (r3->action->0)->Live_0@;
            &&& list.len() == 1
            &&& list[0]@.source == m.source
            &&& list[0]@.command.verb == m.command.verb
            &&& list[0]@.command.params == m.command.params
            &&& m.command.tags.is_prefix_of(list[0]@.command.tags)
        }),
        o3.contains_key(conn) && !o3[conn].contains_key(tag),
{
    let b = begin.command;
    let e = end.command;
    assert(b.params[0].skip(1) =~= tag);
    assert(e.params[0].skip(1) =~= tag);
    assert(after_mark(b.params[0], '+') == Some(tag));
    assert(after_mark(e.params[0], '+') is None);
    assert(after_mark(e.params[0], '-') == Some(tag));
    let own = open_of(o0, conn);
    let first = batch_opened_by(b, own, now.mono_ms);
    assert(open_of(o1, conn)[tag] == first);
    let x = NumberedV { order, message: IrcMessageV { command: with_label(open_of(o1, conn), m.command), ..m } };
    let second = taken(first, x);
    assert(second.messages =~= seq![x]);
    assert(open_of(o2, conn)[tag] == second);
    assert(spoil(open_of(o2, conn), e) == open_of(o2, conn));
    let a = r3->action->0;
    assert(a@ == BatchActionV::Live(plain(second.messages)));
    let list = a->Live_0@;
    assert(message_views(list) == plain(second.messages));
    assert(message_views(list).len() == list.len());
    assert(message_views(list)[0] == list[0]@);
    assert(plain(second.messages)[0] == x.message);
    assert(m.command.tags =~= x.message.command.tags.subrange(0, m.command.tags.len() as int));
}

/// A connection belongs to the first server that has its id or its label, and to none only where none has.
pub proof fn connections_find_their_server(config: Config, conn: Seq<char>, i: int)
    requires
        0 <= i <= config.servers.keys().len(),
    ensures
        ({
            let keys = config.servers.keys();
            match server_of(config, conn, i) {
                Some(id) => (id == conn || config.servers@[id].label@ == conn) && exists|k: int|
                    i <= k < keys.len() && #[trigger] keys[k] == id && forall|j: int|
                        i <= j < k ==> #[trigger] keys[j] != conn && config.servers@[keys[j]].label@ != conn,
                None => forall|j: int|
                    i <= j < keys.len() ==> #[trigger] keys[j] != conn && config.servers@[keys[j]].label@ != conn,
            }
        }),
    decreases config.servers.keys().len() - i,
{
    let keys = config.servers.keys();
    if i < keys.len() {
        if !(keys[i] == conn || config.servers@[keys[i]].label@ == conn) {
            connections_find_their_server(config, conn, i + 1);
        } else {
            assert(keys[i] == keys[i]);
        }
    }
}

/// What is negotiated is shown in full: each line stands in the buffer, in order, below what stood there.
pub proof fn negotiations_are_shown_in_order(
    before: AppState,
    after: AppState,
    buffer: Seq<char>,
    lines: Seq<Seq<char>>,
    now_ms: i64,
    i: int,
)
    requires
        negotiation_shown(before, after, buffer, lines, now_ms),
        before.buffers@.contains_key(buffer),
    ensures
        after.buffers@.contains_key(buffer),
        ({
            let b = before.buffers@[buffer].messages@;
            let a = after.buffers@[buffer].messages@;
            &&& b.is_prefix_of(a)
            &&& a.len() == b.len() + lines.len()
            &&& 0 <= i < lines.len() ==> exists|head: Seq<char>, tail: Seq<char>|
                a[b.len() + i].text@ == #[trigger] (head + lines[i] + tail)
        }),
    decreases lines.len(),
{
    if lines.len() > 0 {
        let rest = lines.drop_last();
        let middle = choose|middle: AppState|
            negotiation_shown(before, middle, buffer, lines.drop_last(), now_ms) && #[trigger] event_added(
                middle,
                after,
                buffer,
                "%Z56b6c2"@ + lines.last() + "%N"@,
                now_ms,
            );
        negotiations_are_shown_in_order(before, middle, buffer, rest, now_ms, i);
        let b = before.buffers@[buffer].messages@;
        let m = middle.buffers@[buffer].messages@;
        let a = after.buffers@[buffer].messages@;
        let n = m.len() as int;
        let text = "%Z56b6c2"@ + lines.last() + "%N"@;
        assert(a[n + 0]@.text == text);
        assert(b =~= a.subrange(0, b.len() as int)) by {
            assert forall|j: int| 0 <= j < b.len() implies b[j] == a[j] by {
                assert(b[j] == m.subrange(0, b.len() as int)[j]);
                assert(m[j] == a.take(n)[j]);
            }
        }
        if 0 <= i < rest.len() {
            assert(rest[i] == lines[i]);
            assert(a.take(n)[b.len() + i] == a[b.len() + i]);
        }
    }
}

} // verus!
