//! Setting connections up, binding them to a bouncer's networks, and connecting again.
use vstd::prelude::*;

use crate::app::{App, Config};
use crate::chathistory::ChatHistory;
use crate::collections::{with_key, without_key, StrSet};
use crate::network_scope::{network_scope, scope_seq};
use crate::state::{
    activated, all_closed, appended_at, blank, buffer_id_seq, closed, copy_texts, event_v, id_after,
    lemma_all_closed, make_buffer_id, AppState, Buffer, BufferType, Connection, ConnectionStatus,
    Identity, Provider, ServerConfig, DEFAULT_CONN_ID,
};
use crate::text::{chars_of, concat3, has_text, opt_text, same, slice_text, starts_with, texts};

verus! {

broadcast use vstd::string::group_string_axioms;

/// The connection of the shell buffer.
pub const SHELL_CONN_ID: &'static str = "_shell";

/// What the connections of the log browser begin with.
pub const LOG_CONN_PREFIX: &'static str = "_log_";

/// Whether a character ends the account part of a bouncer login.
pub open spec fn login_mark(c: char) -> bool {
    c == '/' || c == '@'
}

/// Where the account part of a login ends, looking from `from` on.
pub open spec fn login_end(s: Seq<char>, from: int) -> int
    decreases s.len() - from,
{
    if from >= s.len() {
        s.len() as int
    } else if login_mark(s[from]) {
        from
    } else {
        login_end(s, from + 1)
    }
}

/// The account part of a login: what stands before its network and its client.
pub open spec fn account_part(s: Seq<char>) -> Seq<char> {
    s.take(login_end(s, 0))
}

/// The account part of a login.
fn cut_login(s: &str) -> (r: String)
    ensures
        r@ == account_part(s@),
{
    let v = chars_of(s);
    let mut i: usize = 0;
    while i < v.len() && !(v[i] == '/' || v[i] == '@')
        invariant
            v@ == s@,
            i <= v@.len(),
            login_end(s@, 0) == login_end(s@, i as int),
        decreases v@.len() - i,
    {
        i = i + 1;
    }
    assert(login_end(s@, 0) == i);
    let r = slice_text(&v, 0, i);
    assert(r@ =~= account_part(s@));
    r
}

/// The configuration that names the network of a connection, once a bouncer said what it is bound to:
/// a login that was not bound explicitly counts without its network and its client, and a password
/// that soju took does not count.
pub open spec fn scoping_config(
    origin: ServerConfig,
    c: ServerConfig,
    provider: Option<Provider>,
    identity: Identity,
    default_user: Seq<char>,
) -> bool {
    &&& c.label@ == origin.label@
    &&& opt_text(c.password) == (if provider == Some(Provider::Soju) {
        None
    } else {
        opt_text(origin.password)
    })
    &&& opt_text(c.username) == (if origin.bound() {
        opt_text(origin.username)
    } else {
        Some(
            account_part(
                match origin.username {
                    Some(user) => user@,
                    None => default_user,
                },
            ),
        )
    })
    &&& opt_text(c.sasl_user) == (match origin.sasl_user {
        Some(user) if !origin.bound() => Some(account_part(user@)),
        _ => opt_text(origin.sasl_user),
    })
    &&& match identity {
        Identity::Control => c.bouncer_control && opt_text(c.bouncer_network_id) == opt_text(
            origin.bouncer_network_id,
        ),
        Identity::Network(network) => opt_text(c.bouncer_network_id) == Some(network@)
            && c.bouncer_control == origin.bouncer_control,
    }
}

/// The configuration that names the network of a connection.
fn scoping(
    origin: &ServerConfig,
    provider: Option<Provider>,
    identity: &Identity,
    default_user: &str,
) -> (r: ServerConfig)
    ensures
        scoping_config(*origin, r, provider, *identity, default_user@),
{
    let explicit = origin.bouncer_network_id.is_some() || origin.bouncer_control;
    let mut c = origin.copy();
    if provider == Some(Provider::Soju) {
        c.password = None;
    }
    if !explicit {
        c.username = Some(
            match &origin.username {
                Some(user) => cut_login(user.as_str()),
                None => cut_login(default_user),
            },
        );
        c.sasl_user = match &origin.sasl_user {
            Some(user) => Some(cut_login(user.as_str())),
            None => None,
        };
    }
    match identity {
        Identity::Control => {
            c.bouncer_control = true;
        },
        Identity::Network(network) => {
            c.bouncer_network_id = Some(network.clone());
        },
    }
    c
}

/// A connection took up what a bouncer said it is bound to.
pub open spec fn identified(
    before: Connection,
    after: Connection,
    account: Seq<char>,
    identity: Option<Identity>,
    provider: Option<Provider>,
    default_user: Seq<char>,
) -> bool {
    &&& after == (Connection {
        network_scope: after.network_scope,
        bouncer_identity: identity,
        joined_channels: after.joined_channels,
        ..before
    })
    &&& match identity {
        None => after.network_scope is None && after.joined_channels == before.joined_channels,
        Some(known) => {
            &&& after.joined_channels@.len() == 0
            &&& exists|c: ServerConfig|
                #[trigger] scoping_config(before.origin_config, c, provider, known, default_user)
                    && opt_text(after.network_scope) == Some(scope_seq(account, &c, default_user))
        },
    }
}

/// The buffers of a connection, without its server buffer.
pub open spec fn conversations(state: AppState, ids: Seq<Seq<char>>, conn: Seq<char>) -> Seq<Seq<char>>
    decreases ids.len(),
{
    if ids.len() == 0 {
        Seq::empty()
    } else {
        let init = conversations(state, ids.drop_last(), conn);
        let b = state.buffers@[ids.last()];
        if b.connection_id@ == conn && b.buffer_type != BufferType::Server {
            init.push(ids.last())
        } else {
            init
        }
    }
}

/// The buffers of a connection, without its server buffer.
fn conversation_ids(state: &AppState, conn: &str) -> (r: Vec<String>)
    ensures
        texts(r@) == conversations(*state, state.buffers.keys(), conn@),
{
    let ghost keys = state.buffers.keys();
    let mut r: Vec<String> = Vec::new();
    let n: usize = state.buffers.len();
    let mut i: usize = 0;
    assert(keys.take(0) =~= Seq::<Seq<char>>::empty());
    assert(texts(r@) =~= Seq::<Seq<char>>::empty());
    while i < n
        invariant
            keys == state.buffers.keys(),
            n == keys.len(),
            i <= n,
            texts(r@) == conversations(*state, keys.take(i as int), conn@),
        decreases n - i,
    {
        let key = state.buffers.key_at(i);
        let b = state.buffers.value_at(i);
        assert(keys.take(i + 1).drop_last() =~= keys.take(i as int));
        assert(keys.take(i + 1).last() == key@);
        if same(b.connection_id.as_str(), conn) && b.buffer_type != BufferType::Server {
            let ghost was = texts(r@);
            let ghost k = key@;
            r.push(key.clone());
            assert(texts(r@) =~= was.push(k));
        }
        i = i + 1;
    }
    assert(keys.take(n as int) =~= keys);
    r
}

/// Whether a connection is one of the client's own, with no network behind it.
pub open spec fn pseudo(id: Seq<char>) -> bool {
    id == DEFAULT_CONN_ID@ || id == SHELL_CONN_ID@ || LOG_CONN_PREFIX@.is_prefix_of(id)
}

/// The network that a configured server is.
pub open spec fn configured_key(config: Config, state: AppState, id: Seq<char>) -> Seq<char> {
    if state.connections@.contains_key(id) && state.connections@[id].bouncer_identity is Some {
        state.connections@[id].key()
    } else {
        scope_seq(id, &config.servers@[id], config.username@)
    }
}

/// A configured server is this network.
pub open spec fn configured_as(config: Config, state: AppState, id: Seq<char>, network: Seq<char>) -> bool {
    config.servers@.contains_key(id) && configured_key(config, state, id) == network
}

/// A live connection is to this network.
pub open spec fn live_on(state: AppState, id: Seq<char>, network: Seq<char>) -> bool {
    &&& state.connections@.contains_key(id)
    &&& !pseudo(state.connections@[id].id@)
    &&& state.connections@[id].key() == network
}

/// A network that is configured or connected.
pub open spec fn in_play(config: Config, state: AppState, network: Seq<char>) -> bool {
    ||| exists|id: Seq<char>| #[trigger] configured_as(config, state, id, network)
    ||| exists|id: Seq<char>| #[trigger] live_on(state, id, network)
}

/// The keyring knows exactly the networks that are in play, each once.
pub open spec fn networks_refreshed(config: Config, before: AppState, after: AppState) -> bool {
    match before.keyring {
        None => after == before,
        Some(keyring) => {
            &&& after == (AppState { keyring: after.keyring, ..before })
            &&& after.keyring matches Some(k) && {
                &&& k == (crate::keyring::Keyring { networks: k.networks, ..keyring })
                &&& texts(k.networks@).no_duplicates()
                &&& forall|n: Seq<char>| #[trigger]
                    texts(k.networks@).contains(n) <==> in_play(config, before, n)
            }
        },
    }
}

/// Adds a text to a list that holds each once.
fn add_once(list: &mut Vec<String>, text: String)
    requires
        texts(old(list)@).no_duplicates(),
    ensures
        texts(final(list)@).no_duplicates(),
        forall|n: Seq<char>| #[trigger]
            texts(final(list)@).contains(n) <==> texts(old(list)@).contains(n) || n == text@,
{
    let ghost was = texts(list@);
    if has_text(list, text.as_str()) {
        return;
    }
    let ghost t = text@;
    list.push(text);
    proof {
        assert(texts(list@) =~= was.push(t));
        assert forall|n: Seq<char>| #[trigger] texts(list@).contains(n) <==> was.contains(n) || n == t by {
            if was.contains(n) {
                let i = was.index_of(n);
                assert(was.push(t)[i] == n);
            }
            assert(was.push(t)[was.len() as int] == t);
            if was.push(t).contains(n) && n != t {
                let i = was.push(t).index_of(n);
                assert(was[i] == n);
            }
        }
    }
}

/// The networks that are configured or connected, each once.
fn networks_in_play(config: &Config, state: &AppState) -> (r: Vec<String>)
    ensures
        texts(r@).no_duplicates(),
        forall|n: Seq<char>| #[trigger] texts(r@).contains(n) <==> in_play(*config, *state, n),
{
    let mut r: Vec<String> = Vec::new();
    let ghost keys = config.servers.keys();
    let n: usize = config.servers.len();
    let mut i: usize = 0;
    while i < n
        invariant
            keys == config.servers.keys(),
            config.servers.ordered(),
            n == keys.len(),
            i <= n,
            texts(r@).no_duplicates(),
            forall|x: Seq<char>| #[trigger]
                texts(r@).contains(x) <==> exists|j: int|
                    0 <= j < i && configured_key(*config, *state, #[trigger] keys[j]) == x,
        decreases n - i,
    {
        let id = config.servers.key_at(i);
        let server = config.servers.value_at(i);
        let known = match state.connections.get(id.as_str()) {
            Some(c) => if c.bouncer_identity.is_some() {
                Some(c.network_key().clone())
            } else {
                None
            },
            None => None,
        };
        let key = match known {
            Some(key) => key,
            None => network_scope(id.as_str(), server, config.username.as_str()),
        };
        let ghost k = key@;
        let ghost was = texts(r@);
        assert(k == configured_key(*config, *state, keys[i as int]));
        add_once(&mut r, key);
        proof {
            assert forall|x: Seq<char>| #[trigger] texts(r@).contains(x) <==> exists|j: int|
                0 <= j < i + 1 && configured_key(*config, *state, #[trigger] keys[j]) == x by {
                assert(was.contains(x) <==> exists|j: int|
                    0 <= j < i && configured_key(*config, *state, #[trigger] keys[j]) == x);
                if x == k {
                    assert(configured_key(*config, *state, keys[i as int]) == x);
                }
            }
        }
        i = i + 1;
    }
    let ghost from_config = texts(r@);
    proof {
        assert forall|x: Seq<char>| #[trigger] from_config.contains(x) <==> exists|id: Seq<char>| #[trigger]
            configured_as(*config, *state, id, x) by {
            if from_config.contains(x) {
                let j = choose|j: int|
                    0 <= j < n && configured_key(*config, *state, #[trigger] keys[j]) == x;
                assert(configured_as(*config, *state, keys[j], x));
            }
            if exists|id: Seq<char>| #[trigger] configured_as(*config, *state, id, x) {
                let id = choose|id: Seq<char>| #[trigger] configured_as(*config, *state, id, x);
                let j = keys.index_of(id);
                assert(keys[j] == id);
            }
        }
    }
    let ghost conns = state.connections.keys();
    let m: usize = state.connections.len();
    let mut b: usize = 0;
    while b < m
        invariant
            conns == state.connections.keys(),
            state.connections.ordered(),
            m == conns.len(),
            b <= m,
            texts(r@).no_duplicates(),
            forall|x: Seq<char>| #[trigger]
                texts(r@).contains(x) <==> from_config.contains(x) || exists|j: int|
                    0 <= j < b && live_on(*state, #[trigger] conns[j], x),
        decreases m - b,
    {
        let c = state.connections.value_at(b);
        let ghost was = texts(r@);
        let own = same(c.id.as_str(), DEFAULT_CONN_ID) || same(c.id.as_str(), SHELL_CONN_ID)
            || starts_with(c.id.as_str(), LOG_CONN_PREFIX);
        assert(own == pseudo(c.id@));
        if !own {
            add_once(&mut r, c.network_key().clone());
        }
        proof {
            assert forall|x: Seq<char>| #[trigger] texts(r@).contains(x) <==> from_config.contains(x)
                || exists|j: int| 0 <= j < b + 1 && live_on(*state, #[trigger] conns[j], x) by {
                assert(was.contains(x) <==> from_config.contains(x) || exists|j: int|
                    0 <= j < b && live_on(*state, #[trigger] conns[j], x));
                if !own && x == c.key() {
                    assert(live_on(*state, conns[b as int], x));
                }
            }
        }
        b = b + 1;
    }
    proof {
        assert forall|x: Seq<char>| #[trigger] texts(r@).contains(x) <==> in_play(*config, *state, x) by {
            if exists|j: int| 0 <= j < m && live_on(*state, #[trigger] conns[j], x) {
                let j = choose|j: int| 0 <= j < m && live_on(*state, #[trigger] conns[j], x);
                assert(live_on(*state, conns[j], x));
            }
            if exists|id: Seq<char>| #[trigger] live_on(*state, id, x) {
                let id = choose|id: Seq<char>| #[trigger] live_on(*state, id, x);
                let j = conns.index_of(id);
                assert(conns[j] == id);
            }
        }
    }
    r
}

/// Tells the keyring which networks are in play, so that a row of one is never taken for another's.
pub fn refresh_e2e_configured_networks(config: &Config, state: &mut AppState)
    ensures
        networks_refreshed(*config, *old(state), *final(state)),
{
    if state.keyring.is_none() {
        return;
    }
    let networks = networks_in_play(config, state);
    match &mut state.keyring {
        None => {},
        Some(keyring) => {
            keyring.networks = networks;
        },
    }
}

/// The conversations to close, once a connection took up its network.
pub open spec fn left_behind(c: Connection, bound: AppState, id: Seq<char>) -> Seq<Seq<char>> {
    if opt_text(c.network_scope) == opt_text(bound.connections@[id].network_scope) {
        Seq::empty()
    } else {
        conversations(bound, bound.buffers.keys(), id)
    }
}

/// A bouncer's word on a connection was taken up: where the network changed, the conversations of the
/// one before are closed.
pub open spec fn identity_applied(
    config: Config,
    before: AppState,
    after: AppState,
    account: Seq<char>,
    id: Seq<char>,
    identity: Option<Identity>,
    provider: Option<Provider>,
) -> bool {
    if !before.connections@.contains_key(id) || (before.connections@[id].origin_config.bound()
        && provider != Some(Provider::Soju)) {
        after == before
    } else {
        exists|bound: AppState, cleared: AppState|
            {
                &&& bound == (AppState { connections: bound.connections, ..before })
                &&& bound.connections@ == before.connections@.insert(id, bound.connections@[id])
                &&& identified(
                    before.connections@[id],
                    bound.connections@[id],
                    account,
                    identity,
                    provider,
                    config.username@,
                )
                &&& #[trigger] all_closed(
                    bound,
                    cleared,
                    left_behind(before.connections@[id], bound, id),
                )
                &&& networks_refreshed(config, cleared, after)
            }
    }
}

/// Takes up what a bouncer said a connection is bound to. A connection that is bound by its
/// configuration listens to soju alone.
pub fn apply_bouncer_identity(
    config: &Config,
    state: &mut AppState,
    account: &str,
    id: &str,
    identity: Option<Identity>,
    provider: Option<Provider>,
)
    ensures
        identity_applied(*config, *old(state), *final(state), account@, id@, identity, provider),
{
    let ghost before = *state;
    let ghost who = identity;
    let explicit = match state.connections.get(id) {
        None => {
            return;
        },
        Some(c) => c.origin_config.bouncer_network_id.is_some() || c.origin_config.bouncer_control,
    };
    if explicit && provider != Some(Provider::Soju) {
        return;
    }
    let ghost c0 = state.connections@[id@];
    let mut changed = false;
    match state.connections.get_mut(id) {
        None => {},
        Some(c) => {
            let scope = match &identity {
                None => None,
                Some(known) => {
                    let s = scoping(&c.origin_config, provider, known, config.username.as_str());
                    assert(scoping_config(c0.origin_config, s, provider, *known, config.username@));
                    Some(network_scope(account, &s, config.username.as_str()))
                },
            };
            changed = match (&c.network_scope, &scope) {
                (None, None) => false,
                (Some(a), Some(b)) => !same(a.as_str(), b.as_str()),
                _ => true,
            };
            c.network_scope = scope;
            if identity.is_some() {
                c.joined_channels = Vec::new();
            }
            c.bouncer_identity = identity;
            assert(identified(c0, *c, account@, who, provider, config.username@));
            assert(changed == (opt_text(c0.network_scope) != opt_text(c.network_scope)));
        },
    }
    let ghost bound = *state;
    let ids = if changed {
        conversation_ids(state, id)
    } else {
        Vec::new()
    };
    state.remove_buffers(&ids);
    let ghost cleared = *state;
    proof {
        if !changed {
            assert(texts(ids@) =~= Seq::<Seq<char>>::empty());
        }
        assert(bound.connections@ =~= before.connections@.insert(id@, bound.connections@[id@]));
        assert(texts(ids@) == left_behind(c0, bound, id@));
        assert(all_closed(bound, cleared, left_behind(before.connections@[id@], bound, id@)));
    }
    refresh_e2e_configured_networks(config, state);
}

/// A connection as it is set up from its configuration.
pub open spec fn new_connection(
    c: Connection,
    config: Config,
    conn_id: Seq<char>,
    server: ServerConfig,
    account: Seq<char>,
) -> bool {
    &&& c.id@ == conn_id
    &&& c.label@ == server.label@
    &&& c.status == ConnectionStatus::Connecting
    &&& c.nick@ == (match server.nick {
        Some(nick) => nick@,
        None => config.nick@,
    })
    &&& c.own_handle is None
    &&& c.user_modes@ == Seq::<char>::empty()
    &&& c.error is None
    &&& c.lag_ms is None
    &&& !c.lag_pending
    &&& c.reconnect_attempts == 0
    &&& c.reconnect_delay_secs == (match server.reconnect_delay {
        Some(delay) => delay,
        None => 30,
    })
    &&& c.next_reconnect is None
    &&& c.should_reconnect == (match server.auto_reconnect {
        Some(auto) => auto,
        None => true,
    })
    &&& texts(c.joined_channels@) == (if server.bound() {
        Seq::empty()
    } else {
        texts(server.channels@)
    })
    &&& opt_text(c.network_scope) == (if server.bound() {
        Some(scope_seq(account, &server, config.username@))
    } else {
        None
    })
    &&& c.bouncer_identity is None
    &&& c.enabled_caps@ == Set::<Seq<char>>::empty()
    &&& c.multiline is None
    &&& c.batch_ref_counter == 0
    &&& c.casemapping@ == "rfc1459"@
    &&& !c.monitor_supported
    &&& c.chathistory_max is None
    &&& c.local_ip is None
    &&& c.chathistory.untouched()
    &&& (ServerConfig { username: server.username, ..c.origin_config }).agrees(&server)
    &&& opt_text(c.origin_config.username) == (if server.bound() && server.username is None {
        Some(config.username@)
    } else {
        opt_text(server.username)
    })
}

/// A connection as it is set up from its configuration.
fn build_connection(config: &Config, conn_id: &str, server: &ServerConfig, account: &str) -> (c: Connection)
    ensures
        new_connection(c, *config, conn_id@, *server, account@),
{
    let bound = server.bouncer_network_id.is_some() || server.bouncer_control;
    let mut origin = server.copy();
    if bound && origin.username.is_none() {
        origin.username = Some(config.username.clone());
    }
    let c = Connection {
        id: conn_id.to_string(),
        label: server.label.clone(),
        status: ConnectionStatus::Connecting,
        nick: match &server.nick {
            Some(nick) => nick.clone(),
            None => config.nick.clone(),
        },
        own_handle: None,
        user_modes: String::new(),
        error: None,
        lag_ms: None,
        lag_pending: false,
        reconnect_attempts: 0,
        reconnect_delay_secs: match server.reconnect_delay {
            Some(delay) => delay,
            None => 30,
        },
        next_reconnect: None,
        should_reconnect: match server.auto_reconnect {
            Some(auto) => auto,
            None => true,
        },
        joined_channels: if bound {
            Vec::new()
        } else {
            copy_texts(&server.channels)
        },
        origin_config: origin,
        enabled_caps: StrSet::new(),
        multiline: None,
        batch_ref_counter: 0,
        network_scope: if bound {
            Some(network_scope(account, server, config.username.as_str()))
        } else {
            None
        },
        bouncer_identity: None,
        casemapping: "rfc1459".to_string(),
        monitor_supported: false,
        chathistory_max: None,
        local_ip: None,
        chathistory: ChatHistory::new(),
    };
    proof {
        if bound {
            assert(texts(c.joined_channels@) =~= Seq::<Seq<char>>::empty());
        }
    }
    c
}

/// The placeholder is closed, once there is a real connection.
pub open spec fn placeholder_gone(before: AppState, after: AppState) -> bool {
    let id = buffer_id_seq(DEFAULT_CONN_ID@, "Status"@);
    if before.buffers@.contains_key(id) {
        exists|middle: AppState|
            {
                &&& #[trigger] closed(before, middle, id)
                &&& after == (AppState { connections: after.connections, ..middle })
                &&& after.connections@ == middle.connections@.remove(DEFAULT_CONN_ID@)
                &&& after.connections.keys() == without_key(middle.connections.keys(), DEFAULT_CONN_ID@)
            }
    } else {
        after == before
    }
}

/// A connection and its server buffer were added.
pub open spec fn connection_added(
    config: Config,
    before: AppState,
    after: AppState,
    conn_id: Seq<char>,
    server: ServerConfig,
    account: Seq<char>,
) -> bool {
    exists|middle: AppState|
        {
            &&& middle == (AppState { connections: middle.connections, ..before })
            &&& middle.connections@ == before.connections@.insert(conn_id, middle.connections@[conn_id])
            &&& middle.connections.keys() == with_key(before.connections.keys(), conn_id)
            &&& new_connection(middle.connections@[conn_id], config, conn_id, server, account)
            &&& #[trigger] networks_refreshed(config, middle, after)
        }
}

/// A buffer as it is opened.
pub open spec fn fresh_buffer(b: Buffer, conn: Seq<char>, kind: BufferType, name: Seq<char>) -> bool {
    &&& b.id@ == buffer_id_seq(conn, name)
    &&& b.connection_id@ == conn
    &&& b.name@ == name
    &&& b.buffer_type == kind
    &&& blank(b)
}

/// A buffer was opened; one that was there under its id is replaced.
pub open spec fn opened(
    before: AppState,
    after: AppState,
    conn: Seq<char>,
    kind: BufferType,
    name: Seq<char>,
) -> bool {
    let id = buffer_id_seq(conn, name);
    &&& after == (AppState { buffers: after.buffers, ..before })
    &&& after.buffers@ == before.buffers@.insert(id, after.buffers@[id])
    &&& fresh_buffer(after.buffers@[id], conn, kind, name)
    &&& after.buffers.keys() == with_key(before.buffers.keys(), id)
}

/// Opens an empty buffer.
pub fn open_buffer(state: &mut AppState, conn: &str, kind: BufferType, name: &str)
    ensures
        opened(*old(state), *final(state), conn@, kind, name@),
{
    state.add_buffer(Buffer::named(conn, kind, name));
}

/// An event was reported in a buffer.
pub open spec fn event_added(
    before: AppState,
    after: AppState,
    buffer: Seq<char>,
    text: Seq<char>,
    now_ms: i64,
) -> bool {
    &&& after == (AppState {
        buffers: after.buffers,
        message_counter: id_after(before.message_counter),
        ..before
    })
    &&& appended_at(
        before.buffers,
        after.buffers,
        buffer,
        seq![event_v(id_after(before.message_counter), now_ms, text, None)],
    )
}

/// Reports an event in a buffer.
pub fn add_event_to_buffer(state: &mut AppState, buffer: &str, text: String, now_ms: i64)
    ensures
        event_added(*old(state), *final(state), buffer@, text@, now_ms),
{
    state.add_event(buffer, text, None, now_ms);
}

/// A connection was set up, with its server buffer and a line that says so.
pub open spec fn connection_set_up(
    config: Config,
    before: AppState,
    after: AppState,
    conn_id: Seq<char>,
    server: ServerConfig,
    account: Seq<char>,
    activate: bool,
    now_ms: i64,
) -> bool {
    let id = buffer_id_seq(conn_id, server.label@);
    exists|a: AppState, b: AppState, c: AppState, d: AppState|
        {
            &&& #[trigger] placeholder_gone(before, a)
            &&& #[trigger] connection_added(config, a, b, conn_id, server, account)
            &&& #[trigger] opened(b, c, conn_id, BufferType::Server, server.label@)
            &&& if activate {
                activated(c, d, id)
            } else {
                d == c
            }
            &&& #[trigger] event_added(d, after, id, "Connecting to "@ + server.label@ + "..."@, now_ms)
        }
}

/// Sets up the state of a connection, its server buffer and the line that says so; returns the id of
/// the buffer. `account` names the bouncer account whose network the connection is.
pub fn setup_connection_for_account(
    config: &Config,
    state: &mut AppState,
    conn_id: &str,
    server: &ServerConfig,
    account: &str,
    activate: bool,
    now_ms: i64,
) -> (r: String)
    ensures
        r@ == buffer_id_seq(conn_id@, server.label@),
        connection_set_up(
            *config,
            *old(state),
            *final(state),
            conn_id@,
            *server,
            account@,
            activate,
            now_ms,
        ),
{
    let ghost s0 = *state;
    let placeholder = make_buffer_id(DEFAULT_CONN_ID, "Status");
    if state.buffers.contains(placeholder.as_str()) {
        state.remove_buffer(placeholder.as_str());
        let ghost middle = *state;
        assert(closed(s0, middle, placeholder@));
        state.remove_connection(DEFAULT_CONN_ID);
    }
    let ghost a = *state;
    assert(placeholder_gone(s0, a));
    let c = build_connection(config, conn_id, server, account);
    state.add_connection(c);
    let ghost middle = *state;
    refresh_e2e_configured_networks(config, state);
    let ghost b = *state;
    assert(networks_refreshed(*config, middle, b));
    assert(connection_added(*config, a, b, conn_id@, *server, account@));
    let id = make_buffer_id(conn_id, server.label.as_str());
    open_buffer(state, conn_id, BufferType::Server, server.label.as_str());
    let ghost o = *state;
    assert(opened(b, o, conn_id@, BufferType::Server, server.label@));
    if activate {
        state.set_active_buffer(id.as_str());
    }
    let ghost d = *state;
    let text = concat3("Connecting to ", server.label.as_str(), "...");
    add_event_to_buffer(state, id.as_str(), text, now_ms);
    assert(event_added(d, *state, id@, "Connecting to "@ + server.label@ + "..."@, now_ms));
    id
}

impl App {
    /// Sets up the state of a connection, its server buffer and the line that says so, and goes to the
    /// buffer; returns its id.
    pub fn setup_connection(&mut self, conn_id: &str, server: &ServerConfig, now_ms: i64) -> (r: String)
        ensures
            r@ == buffer_id_seq(conn_id@, server.label@),
            *final(self) == (App { state: final(self).state, ..*old(self) }),
            connection_set_up(
                old(self).config,
                old(self).state,
                final(self).state,
                conn_id@,
                *server,
                conn_id@,
                true,
                now_ms,
            ),
    {
        setup_connection_for_account(
            &self.config,
            &mut self.state,
            conn_id,
            server,
            conn_id,
            true,
            now_ms,
        )
    }
}

/// With two networks in play, no row from before networks were told apart stands in for one of theirs.
pub proof fn second_network_ends_legacy_rows(
    config: Config,
    before: AppState,
    after: AppState,
    a: Seq<char>,
    b: Seq<char>,
)
    requires
        networks_refreshed(config, before, after),
        before.keyring is Some,
        in_play(config, before, a),
        in_play(config, before, b),
        a != b,
    ensures
        after.keyring matches Some(k) && !k.legacy_allowed(),
{
    let k = after.keyring->0;
    let all = texts(k.networks@);
    assert(all.contains(a) && all.contains(b));
    let i = all.index_of(a);
    let j = all.index_of(b);
    assert(all[i] == a && all[j] == b);
}

proof fn lemma_conversations(state: AppState, ids: Seq<Seq<char>>, conn: Seq<char>, k: Seq<char>)
    ensures
        conversations(state, ids, conn).contains(k) <==> ids.contains(k) && state.buffers@[k].connection_id@ == conn
            && state.buffers@[k].buffer_type != BufferType::Server,
    decreases ids.len(),
{
    if ids.len() > 0 {
        let rest = ids.drop_last();
        let init = conversations(state, rest, conn);
        let all = conversations(state, ids, conn);
        lemma_conversations(state, rest, conn, k);
        if all.contains(k) {
            let i = all.index_of(k);
            if i < init.len() {
                assert(init[i] == k);
                assert(ids[rest.index_of(k)] == k);
            } else {
                assert(ids[ids.len() - 1] == k);
            }
        }
        if ids.contains(k) && state.buffers@[k].connection_id@ == conn && state.buffers@[k].buffer_type
            != BufferType::Server {
            let j = ids.index_of(k);
            if j < rest.len() {
                assert(rest[j] == k);
                assert(all[init.index_of(k)] == k);
            } else {
                assert(all[all.len() - 1] == k);
            }
        }
    }
}

/// Networks are kept apart. Where a bouncer says that a connection belongs to another network than before, every
/// conversation of the connection is closed, and it is in no channel of the old network any more; its server
/// buffer and the buffers of all other connections stay as they are. Where the network is the same, all stay.
pub proof fn networks_are_kept_apart(
    config: Config,
    before: AppState,
    after: AppState,
    account: Seq<char>,
    id: Seq<char>,
    identity: Option<Identity>,
    provider: Option<Provider>,
    k: Seq<char>,
)
    requires
        identity_applied(config, before, after, account, id, identity, provider),
        before.buffers.ordered(),
        before.connections@.contains_key(id),
        before.buffers@.contains_key(k),
    ensures
        after.connections@.contains_key(id),
        ({
            let b = before.buffers@[k];
            let c0 = before.connections@[id];
            let c1 = after.connections@[id];
            let moved = opt_text(c0.network_scope) != opt_text(c1.network_scope);
            if moved && b.connection_id@ == id && b.buffer_type != BufferType::Server {
                !after.buffers@.contains_key(k)
            } else {
                after.buffers@.contains_key(k) && after.buffers@[k] == b
            }
        }),
        opt_text(before.connections@[id].network_scope) != opt_text(after.connections@[id].network_scope) && identity
            is Some ==> after.connections@[id].joined_channels@.len() == 0,
        forall|other: Seq<char>| #[trigger]
            before.connections@.contains_key(other) && other != id ==> after.connections@.contains_key(other)
                && after.connections@[other] == before.connections@[other],
{
    if !(before.connections@[id].origin_config.bound() && provider != Some(Provider::Soju)) {
        let (bound, cleared) = choose|bound: AppState, cleared: AppState|
            {
                &&& bound == (AppState { connections: bound.connections, ..before })
                &&& bound.connections@ == before.connections@.insert(id, bound.connections@[id])
                &&& identified(
                    before.connections@[id],
                    bound.connections@[id],
                    account,
                    identity,
                    provider,
                    config.username@,
                )
                &&& #[trigger] all_closed(
                    bound,
                    cleared,
                    left_behind(before.connections@[id], bound, id),
                )
                &&& networks_refreshed(config, cleared, after)
            };
        let gone = left_behind(before.connections@[id], bound, id);
        lemma_all_closed(bound, cleared, gone);
        lemma_conversations(bound, bound.buffers.keys(), id, k);
        assert(before.buffers.keys().contains(k));
        assert(after.buffers == cleared.buffers);
        assert(bound.buffers@.contains_key(k));
        assert(cleared.buffers@.contains_key(k) <==> !gone.contains(k));
    }
}

} // verus!
