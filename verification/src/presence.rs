//! Telling a bouncer whether its user is there.
use vstd::prelude::*;

use crate::app::{handle_took, lemma_took_one, Clock, IrcHandle};
use crate::collections::{selected, with_key, StrMap};
use crate::state::{event_shown, AppState, ConnectionStatus, Provider};
use crate::text::{concat, cut_last, opt_text, rsplit_once, same, starts_with, texts};
use crate::typing::{elapsed, has_elapsed};
use crate::wire::{command0, command1, untagged, Command, CommandV};

verus! {

broadcast use vstd::string::group_string_axioms;

/// How long a browser counts as present without news.
pub const BROWSER_MS: u64 = 45_000;

/// How long to wait after a failed attempt.
pub const RETRY_MS: u64 = 5_000;

/// What a bouncer is told about its user.
#[derive(Debug)]
pub enum Mode {
    Present,
    Absent,
    Manual(String),
}

/// The model of a [`Mode`].
pub enum ModeV {
    Present,
    Absent,
    Manual(Seq<char>),
}

impl View for Mode {
    type V = ModeV;

    open spec fn view(&self) -> ModeV {
        match self {
            Mode::Present => ModeV::Present,
            Mode::Absent => ModeV::Absent,
            Mode::Manual(reason) => ModeV::Manual(reason@),
        }
    }
}

/// The command that tells a mode.
pub open spec fn away_command(mode: ModeV) -> CommandV {
    match mode {
        ModeV::Present => untagged("AWAY"@, Seq::empty()),
        ModeV::Absent => untagged("AWAY"@, seq!["*"@]),
        ModeV::Manual(reason) => untagged("AWAY"@, seq![reason]),
    }
}

impl Mode {
    /// The command that tells the mode.
    pub fn command(&self) -> (r: Command)
        ensures
            r@ == away_command(self@),
    {
        match self {
            Mode::Present => command0("AWAY"),
            Mode::Absent => command1("AWAY", "*"),
            Mode::Manual(reason) => command1("AWAY", reason.as_str()),
        }
    }

    fn same_as(&self, other: &Mode) -> (r: bool)
        ensures
            r == (self@ == other@),
    {
        match (self, other) {
            (Mode::Present, Mode::Present) => true,
            (Mode::Absent, Mode::Absent) => true,
            (Mode::Manual(a), Mode::Manual(b)) => same(a.as_str(), b.as_str()),
            _ => false,
        }
    }
}

/// What one bouncer connection was told.
#[derive(Debug)]
pub struct ConnectionPresence {
    pub scope: String,
    pub provider: Option<Provider>,
    pub sent: Option<Mode>,
    /// When telling it failed.
    pub attempted: Option<u64>,
}

/// A bouncer connection is there anew: it knows only what it was told before registration.
pub open spec fn presence_reconnected(
    before: BouncerPresence,
    after: BouncerPresence,
    state: AppState,
    conn: Seq<char>,
) -> bool {
    &&& after == (BouncerPresence { connections: after.connections, ..before })
    &&& if state.connections@.contains_key(conn) && state.connections@[conn].owns_history() {
        let c = state.connections@[conn];
        let p = after.connections@[conn];
        &&& after.connections@ == before.connections@.insert(conn, p)
        &&& p.scope@ == c.key()
        &&& p.provider is None
        &&& p.attempted is None
        &&& opt_mode(p.sent) == (if c.enabled_caps@.contains("draft/pre-away"@) {
            Some(ModeV::Absent)
        } else {
            None
        })
    } else {
        after.connections == before.connections
    }
}

/// The model of an optional mode.
pub open spec fn opt_mode(m: Option<Mode>) -> Option<ModeV> {
    match m {
        Some(m) => Some(m@),
        None => None,
    }
}

/// What the user asked to be told for a network.
#[derive(Debug)]
pub struct ManualIntent {
    pub reason: Option<String>,
    pub revision: u64,
    pub provider: Option<Provider>,
}

/// A browser session: whether someone is there, and since when that is known.
#[derive(Clone, Copy, Debug, PartialEq, Eq, Structural)]
pub struct Browser {
    pub present: bool,
    pub updated: u64,
}

/// Everything that decides what bouncers are told.
pub struct BouncerPresence {
    pub connections: StrMap<ConnectionPresence>,
    pub browsers: StrMap<Option<Browser>>,
    pub manual: StrMap<ManualIntent>,
    pub revision: u64,
}

/// The account of a network's name: what stands before its last colon.
pub open spec fn account_of(scope: Seq<char>) -> Seq<char> {
    match cut_last(scope, ':') {
        Some(p) => p.0,
        None => scope,
    }
}

/// The account of a network's name.
pub fn account_scope(scope: &str) -> (r: String)
    ensures
        r@ == account_of(scope@),
{
    match rsplit_once(scope, ':') {
        Some((account, _)) => account,
        None => scope.to_string(),
    }
}

/// A browser session counts as present.
pub open spec fn browser_counts(b: Option<Browser>, now: u64) -> bool {
    b matches Some(b) && b.present && !elapsed(now, b.updated, BROWSER_MS)
}

/// An intent applies to a connection: a Lurker bouncer shares it among the networks of an account.
pub open spec fn applies(provider: Provider, scope: Seq<char>, intent_scope: Seq<char>) -> bool {
    if provider == Provider::Lurker {
        account_of(intent_scope) == account_of(scope)
    } else {
        intent_scope == scope
    }
}

/// An intent still belongs to a network that is there.
pub open spec fn intent_lives(state: AppState, scope: Seq<char>, intent: ManualIntent) -> bool {
    exists|id: Seq<char>| #[trigger]
        state.connections@.contains_key(id) && state.connections@[id].owns_history() && (
        state.connections@[id].key() == scope || (intent.provider == Some(Provider::Lurker) && account_of(
            state.connections@[id].key(),
        ) == account_of(scope)))
}

/// A presence entry still belongs to its network.
pub open spec fn entry_lives(state: AppState, id: Seq<char>, entry: ConnectionPresence) -> bool {
    state.connections@.contains_key(id) && state.connections@[id].key() == entry.scope@
}

/// A connection and the intent of its network know the bouncer software that a numeric gave away.
pub open spec fn presence_observed(
    p0: BouncerPresence,
    p1: BouncerPresence,
    conn_id: Seq<char>,
    number: u64,
    server: Option<Seq<char>>,
    args: Seq<Seq<char>>,
) -> bool {
    if !p0.connections@.contains_key(conn_id) {
        p1 == p0
    } else {
        let entry = p0.connections@[conn_id];
        let provider = match BouncerPresence::provider_seen(number, server, args) {
            Some(p) => Some(p),
            None => entry.provider,
        };
        &&& p1.browsers == p0.browsers
        &&& p1.revision == p0.revision
        &&& p1.connections@ == p0.connections@.insert(
            conn_id,
            ConnectionPresence { provider, ..entry },
        )
        &&& if p0.manual@.contains_key(entry.scope@) {
            let intent = p0.manual@[entry.scope@];
            p1.manual@ == p0.manual@.insert(
                entry.scope@,
                ManualIntent {
                    provider: match provider {
                        Some(p) => Some(p),
                        None => intent.provider,
                    },
                    ..intent
                },
            )
        } else {
            p1.manual@ == p0.manual@
        }
    }
}

impl BouncerPresence {
    /// Someone is there, at the terminal or in a browser.
    pub open spec fn present(&self, terminal: bool, now: u64) -> bool {
        terminal || exists|k: Seq<char>| #[trigger]
            self.browsers@.contains_key(k) && browser_counts(self.browsers@[k], now)
    }

    /// The latest of the intents among `scopes` that apply to a connection.
    pub open spec fn latest(&self, provider: Provider, scope: Seq<char>, scopes: Seq<Seq<char>>) -> Option<
        Seq<char>,
    >
        decreases scopes.len(),
    {
        if scopes.len() == 0 {
            None
        } else {
            let best = self.latest(provider, scope, scopes.drop_last());
            let k = scopes.last();
            if applies(provider, scope, k) && (best matches Some(b) ==> self.manual@[b].revision
                <= self.manual@[k].revision) {
                Some(k)
            } else {
                best
            }
        }
    }

    /// What a connection is to be told.
    pub open spec fn desired(&self, provider: Provider, scope: Seq<char>, present: bool) -> ModeV {
        let automatic = if present {
            ModeV::Present
        } else {
            ModeV::Absent
        };
        match self.latest(provider, scope, self.manual.keys()) {
            None => automatic,
            Some(k) => match self.manual@[k].reason {
                Some(reason) => ModeV::Manual(reason@),
                None => automatic,
            },
        }
    }

    /// What a connection is to be told now: nothing where it knows, where telling failed a moment
    /// ago, where its bouncer is not known, or where it cannot be told.
    pub open spec fn wants(
        &self,
        state: AppState,
        handles: Map<Seq<char>, IrcHandle>,
        id: Seq<char>,
        present: bool,
        now: u64,
    ) -> Option<ModeV> {
        let entry = self.connections@[id];
        let c = state.connections@[id];
        if !state.connections@.contains_key(id) || c.control() || c.status != ConnectionStatus::Connected
            || !handles.contains_key(id) {
            None
        } else {
            match entry.provider {
                None => None,
                Some(provider) => {
                    let mode = self.desired(provider, entry.scope@, present);
                    if opt_mode(entry.sent) == Some(mode) || (entry.attempted matches Some(t) && !elapsed(
                        now,
                        t,
                        RETRY_MS,
                    )) {
                        None
                    } else {
                        Some(mode)
                    }
                },
            }
        }
    }

    /// Entries and intents of networks that are gone are dropped.
    pub open spec fn pruned(&self, after: BouncerPresence, state: AppState) -> bool {
        &&& after.browsers == self.browsers
        &&& after.revision == self.revision
        &&& forall|k: Seq<char>| #[trigger]
            after.connections@.contains_key(k) <==> self.connections@.contains_key(k) && entry_lives(
                state,
                k,
                self.connections@[k],
            )
        &&& forall|k: Seq<char>| #[trigger]
            after.connections@.contains_key(k) ==> after.connections@[k] == self.connections@[k]
        &&& forall|k: Seq<char>| #[trigger]
            after.manual@.contains_key(k) <==> self.manual@.contains_key(k) && intent_lives(
                state,
                k,
                self.manual@[k],
            )
        &&& forall|k: Seq<char>| #[trigger]
            after.manual@.contains_key(k) ==> after.manual@[k] == self.manual@[k]
        &&& after.connections.keys() == selected(
            self.connections.keys(),
            Seq::new(
                self.connections.keys().len(),
                |i: int|
                    entry_lives(
                        state,
                        self.connections.keys()[i],
                        self.connections@[self.connections.keys()[i]],
                    ),
            ),
        )
        &&& after.manual.keys() == selected(
            self.manual.keys(),
            Seq::new(
                self.manual.keys().len(),
                |i: int|
                    intent_lives(state, self.manual.keys()[i], self.manual@[self.manual.keys()[i]]),
            ),
        )
    }

    /// Nothing known.
    pub fn new() -> (r: BouncerPresence)
        ensures
            r.connections@ == Map::<Seq<char>, ConnectionPresence>::empty(),
            r.connections.keys() == Seq::<Seq<char>>::empty(),
            r.browsers@ == Map::<Seq<char>, Option<Browser>>::empty(),
            r.browsers.keys() == Seq::<Seq<char>>::empty(),
            r.manual@ == Map::<Seq<char>, ManualIntent>::empty(),
            r.manual.keys() == Seq::<Seq<char>>::empty(),
            r.revision == 0,
    {
        BouncerPresence {
            connections: StrMap::new(),
            browsers: StrMap::new(),
            manual: StrMap::new(),
            revision: 0,
        }
    }

    /// A bouncer connection is there anew: it knows only what it was told before registration.
    pub fn reconnect_bouncer_presence(&mut self, state: &AppState, conn_id: &str)
        ensures
            presence_reconnected(*old(self), *final(self), *state, conn_id@),
    {
        match state.connections.get(conn_id) {
            None => {},
            Some(c) => {
                if c.server_owns_history() {
                    let sent = if c.enabled_caps.contains("draft/pre-away") {
                        Some(Mode::Absent)
                    } else {
                        None
                    };
                    self.connections.insert(
                        conn_id.to_string(),
                        ConnectionPresence {
                            scope: c.network_key().clone(),
                            provider: None,
                            sent,
                            attempted: None,
                        },
                    );
                }
            },
        }
    }

    /// The bouncer software that a numeric gives away.
    pub open spec fn provider_seen(number: u64, server: Option<Seq<char>>, args: Seq<Seq<char>>) -> Option<
        Provider,
    > {
        if number == 5 && server == Some("lurker.bouncer"@) && (exists|i: int|
            0 <= i < args.len() && "BOUNCER_NETID="@.is_prefix_of(#[trigger] args[i])) {
            Some(Provider::Lurker)
        } else if number == 4 && args.len() > 2 && args[2] == "soju"@ {
            Some(Provider::Soju)
        } else {
            None
        }
    }

    /// Learns the bouncer software of a connection from a numeric; the intent of its network learns
    /// it too. `server` is the sender where that is a server.
    pub fn observe_bouncer_presence(
        &mut self,
        conn_id: &str,
        number: u64,
        server: Option<&str>,
        args: &Vec<String>,
    )
        ensures
            presence_observed(
                *old(self),
                *final(self),
                conn_id@,
                number,
                (match server {
                    Some(s) => Some(s@),
                    None => None,
                }),
                texts(args@),
            ),
    {
        let ghost before = *self;
        let mut seen: Option<Provider> = None;
        let lurker = match server {
            Some(s) => same(s, "lurker.bouncer"),
            None => false,
        };
        if number == 5 && lurker && has_netid(args) {
            seen = Some(Provider::Lurker);
        } else if number == 4 && args.len() > 2 && same(args[2].as_str(), "soju") {
            seen = Some(Provider::Soju);
        }
        proof {
            assert(args@.len() > 2 ==> texts(args@)[2] == args@[2]@);
        }
        let (scope, provider) = match self.connections.get_mut(conn_id) {
            None => {
                return;
            },
            Some(entry) => {
                if seen.is_some() {
                    entry.provider = seen;
                }
                (entry.scope.clone(), entry.provider)
            },
        };
        match self.manual.get_mut(scope.as_str()) {
            None => {},
            Some(intent) => {
                if provider.is_some() {
                    intent.provider = provider;
                }
            },
        }
    }

    /// A browser session is there, with nothing known of it yet.
    pub fn register_presence_browser(&mut self, session_id: &str)
        ensures
            *final(self) == (BouncerPresence { browsers: final(self).browsers, ..*old(self) }),
            final(self).browsers@ == old(self).browsers@.insert(session_id@, None),
    {
        self.browsers.insert(session_id.to_string(), None);
    }

    /// News of a registered browser session; tells whether bouncers may have to be told.
    pub fn update_presence_browser(&mut self, session_id: &str, present: bool, now: u64) -> (r: bool)
        ensures
            *final(self) == (BouncerPresence { browsers: final(self).browsers, ..*old(self) }),
            r == old(self).browsers@.contains_key(session_id@),
            final(self).browsers@ == (if r {
                old(self).browsers@.insert(session_id@, Some(Browser { present, updated: now }))
            } else {
                old(self).browsers@
            }),
    {
        match self.browsers.get_mut(session_id) {
            None => false,
            Some(browser) => {
                *browser = Some(Browser { present, updated: now });
                true
            },
        }
    }

    /// A browser session is gone.
    pub fn remove_presence_browser(&mut self, session_id: &str)
        ensures
            *final(self) == (BouncerPresence { browsers: final(self).browsers, ..*old(self) }),
            final(self).browsers@ == old(self).browsers@.remove(session_id@),
    {
        self.browsers.remove(session_id);
    }

    fn is_present(&self, terminal: bool, now: u64) -> (r: bool)
        ensures
            r == self.present(terminal, now),
    {
        if terminal {
            return true;
        }
        let n: usize = self.browsers.len();
        let mut i: usize = 0;
        while i < n
            invariant
                n == self.browsers.keys().len(),
                i <= n,
                self.browsers.ordered(),
                forall|j: int|
                    0 <= j < i ==> !browser_counts(self.browsers@[#[trigger] self.browsers.keys()[j]], now),
            decreases n - i,
        {
            match self.browsers.value_at(i) {
                Some(b) => {
                    if b.present && !has_elapsed(now, b.updated, BROWSER_MS) {
                        assert(self.browsers@.contains_key(self.browsers.keys()[i as int]));
                        return true;
                    }
                },
                None => {},
            }
            i = i + 1;
        }
        proof {
            assert forall|k: Seq<char>| #[trigger] self.browsers@.contains_key(k) implies !browser_counts(
                self.browsers@[k],
                now,
            ) by {
                let j = self.browsers.keys().index_of(k);
                assert(self.browsers.keys()[j] == k);
            }
        }
        false
    }

    /// Drops entries and intents of networks that are gone.
    fn prune(&mut self, state: &AppState)
        ensures
            old(self).pruned(*final(self), *state),
    {
        let ghost before = *self;
        let mut keep: Vec<bool> = Vec::new();
        let n: usize = self.connections.len();
        let mut i: usize = 0;
        while i < n
            invariant
                n == self.connections.keys().len(),
                i <= n,
                keep@.len() == i,
                self.connections.ordered(),
                forall|j: int|
                    0 <= j < i ==> (#[trigger] keep@[j] <==> entry_lives(
                        *state,
                        self.connections.keys()[j],
                        self.connections@[self.connections.keys()[j]],
                    )),
            decreases n - i,
        {
            let id = self.connections.key_at(i);
            let entry = self.connections.value_at(i);
            let lives = match state.connections.get(id.as_str()) {
                None => false,
                Some(c) => same(c.network_key().as_str(), entry.scope.as_str()),
            };
            keep.push(lives);
            i = i + 1;
        }
        let ghost conn_keys = self.connections.keys();
        let ghost conns = self.connections@;
        assert(self.connections.ordered());
        self.connections.retain(&keep);
        proof {
            assert(keep@ =~= Seq::new(
                conn_keys.len(),
                |i: int| entry_lives(*state, conn_keys[i], conns[conn_keys[i]]),
            ));
            assert forall|k: Seq<char>| #[trigger] self.connections@.contains_key(k) <==> conns.contains_key(
                k,
            ) && entry_lives(*state, k, conns[k]) by {
                if conns.contains_key(k) {
                    let j = conn_keys.index_of(k);
                    assert(conn_keys[j] == k);
                    assert(keep@[j] <==> entry_lives(*state, conn_keys[j], conns[conn_keys[j]]));
                }
            }
        }
        let mut flags: Vec<bool> = Vec::new();
        let m: usize = self.manual.len();
        let mut j: usize = 0;
        while j < m
            invariant
                m == self.manual.keys().len(),
                j <= m,
                flags@.len() == j,
                self.manual.ordered(),
                forall|a: int|
                    0 <= a < j ==> (#[trigger] flags@[a] <==> intent_lives(
                        *state,
                        self.manual.keys()[a],
                        self.manual@[self.manual.keys()[a]],
                    )),
            decreases m - j,
        {
            let scope = self.manual.key_at(j);
            let intent = self.manual.value_at(j);
            flags.push(lives_on(state, scope.as_str(), intent));
            j = j + 1;
        }
        let ghost man_keys = self.manual.keys();
        let ghost mans = self.manual@;
        assert(self.manual.ordered());
        self.manual.retain(&flags);
        proof {
            assert(flags@ =~= Seq::new(
                man_keys.len(),
                |i: int| intent_lives(*state, man_keys[i], mans[man_keys[i]]),
            ));
            assert forall|k: Seq<char>| #[trigger] self.manual@.contains_key(k) <==> mans.contains_key(k)
                && intent_lives(*state, k, mans[k]) by {
                if mans.contains_key(k) {
                    let a = man_keys.index_of(k);
                    assert(man_keys[a] == k);
                    assert(flags@[a] <==> intent_lives(*state, man_keys[a], mans[man_keys[a]]));
                }
            }
        }
    }

    fn find_desired(&self, provider: Provider, scope: &str, present: bool) -> (r: Mode)
        ensures
            r@ == self.desired(provider, scope@, present),
    {
        let account = account_scope(scope);
        let n: usize = self.manual.len();
        let mut best: Option<usize> = None;
        let mut i: usize = 0;
        assert(self.manual.keys().take(0) =~= Seq::<Seq<char>>::empty());
        while i < n
            invariant
                n == self.manual.keys().len(),
                i <= n,
                account@ == account_of(scope@),
                match best {
                    Some(b) => b < n && self.latest(
                        provider,
                        scope@,
                        self.manual.keys().take(i as int),
                    ) == Some(self.manual.keys()[b as int]),
                    None => self.latest(provider, scope@, self.manual.keys().take(i as int)) is None,
                },
            decreases n - i,
        {
            let k = self.manual.key_at(i);
            let intent = self.manual.value_at(i);
            assert(self.manual.keys().take(i + 1).drop_last() =~= self.manual.keys().take(i as int));
            assert(self.manual.keys().take(i + 1).last() == k@);
            let matches = if provider == Provider::Lurker {
                let other = account_scope(k.as_str());
                other == account
            } else {
                same(k.as_str(), scope)
            };
            if matches {
                let newer = match best {
                    None => true,
                    Some(b) => self.manual.value_at(b).revision <= intent.revision,
                };
                if newer {
                    best = Some(i);
                }
            }
            i = i + 1;
        }
        assert(self.manual.keys().take(n as int) =~= self.manual.keys());
        match best {
            Some(b) => match &self.manual.value_at(b).reason {
                Some(reason) => {
                    return Mode::Manual(reason.clone());
                },
                None => {},
            },
            None => {},
        }
        if present {
            Mode::Present
        } else {
            Mode::Absent
        }
    }
}

/// Whether an intent still belongs to a network that is there.
fn lives_on(state: &AppState, scope: &str, intent: &ManualIntent) -> (r: bool)
    ensures
        r == intent_lives(*state, scope@, *intent),
{
    let account = account_scope(scope);
    let n: usize = state.connections.len();
    let mut i: usize = 0;
    while i < n
        invariant
            n == state.connections.keys().len(),
            i <= n,
            account@ == account_of(scope@),
            state.connections.ordered(),
            forall|j: int|
                0 <= j < i ==> {
                    let c = state.connections@[#[trigger] state.connections.keys()[j]];
                    !(c.owns_history() && (c.key() == scope@ || (intent.provider == Some(
                        Provider::Lurker,
                    ) && account_of(c.key()) == account_of(scope@))))
                },
        decreases n - i,
    {
        let c = state.connections.value_at(i);
        if c.server_owns_history() {
            let key = c.network_key();
            if same(key.as_str(), scope) {
                assert(state.connections@.contains_key(state.connections.keys()[i as int]));
                return true;
            }
            if intent.provider == Some(Provider::Lurker) {
                let other = account_scope(key.as_str());
                if other == account {
                    assert(state.connections@.contains_key(state.connections.keys()[i as int]));
                    return true;
                }
            }
        }
        i = i + 1;
    }
    proof {
        assert forall|id: Seq<char>| #[trigger] state.connections@.contains_key(id) implies !(
        state.connections@[id].owns_history() && (state.connections@[id].key() == scope@ || (intent.provider
            == Some(Provider::Lurker) && account_of(state.connections@[id].key()) == account_of(
            scope@,
        )))) by {
            let j = state.connections.keys().index_of(id);
            assert(state.connections.keys()[j] == id);
        }
    }
    false
}

/// Whether some argument names the bouncer's network.
fn has_netid(args: &Vec<String>) -> (r: bool)
    ensures
        r == (exists|i: int|
            0 <= i < args@.len() && "BOUNCER_NETID="@.is_prefix_of(#[trigger] texts(args@)[i])),
{
    let mut i: usize = 0;
    while i < args.len()
        invariant
            i <= args@.len(),
            forall|j: int| 0 <= j < i ==> !"BOUNCER_NETID="@.is_prefix_of(#[trigger] texts(args@)[j]),
        decreases args@.len() - i,
    {
        if starts_with(args[i].as_str(), "BOUNCER_NETID=") {
            assert("BOUNCER_NETID="@.is_prefix_of(texts(args@)[i as int]));
            return true;
        }
        i = i + 1;
    }
    false
}

/// An entry after its connection was told a mode, or after telling it failed.
pub open spec fn entry_told(before: ConnectionPresence, after: ConnectionPresence, mode: ModeV, ok: bool, now: u64) -> bool {
    &&& after.scope == before.scope
    &&& after.provider == before.provider
    &&& if ok {
        opt_mode(after.sent) == Some(mode) && after.attempted is None
    } else {
        after.sent == before.sent && after.attempted == Some(now)
    }
}

/// Every connection that is to be told something is told it, once.
pub open spec fn all_told(
    before: BouncerPresence,
    after: BouncerPresence,
    state: AppState,
    handles: Map<Seq<char>, IrcHandle>,
    handles_after: Map<Seq<char>, IrcHandle>,
    present: bool,
    now: u64,
) -> bool {
    &&& after == (BouncerPresence { connections: after.connections, ..before })
    &&& after.connections.keys() == before.connections.keys()
    &&& after.connections@.dom() == before.connections@.dom()
    &&& handles_after.dom() == handles.dom()
    &&& forall|id: Seq<char>| #[trigger]
        before.connections@.contains_key(id) ==> match before.wants(state, handles, id, present, now) {
            None => after.connections@[id] == before.connections@[id],
            Some(mode) => entry_told(
                before.connections@[id],
                after.connections@[id],
                mode,
                handles[id].sender.open(),
                now,
            ),
        }
    &&& forall|id: Seq<char>| #[trigger]
        handles.contains_key(id) ==> if before.connections@.contains_key(id) && before.wants(
            state,
            handles,
            id,
            present,
            now,
        ) is Some {
            handle_took(
                handles[id],
                handles_after[id],
                seq![away_command(before.wants(state, handles, id, present, now)->0)],
            )
        } else {
            handles_after[id] == handles[id]
        }
}

/// Networks that are gone were forgotten, and every bouncer connection was told what it is to be told.
pub open spec fn ticked(
    before: BouncerPresence,
    after: BouncerPresence,
    state: AppState,
    handles: Map<Seq<char>, IrcHandle>,
    handles_after: Map<Seq<char>, IrcHandle>,
    terminal: bool,
    now: u64,
) -> bool {
    exists|middle: BouncerPresence|
        {
            &&& #[trigger] before.pruned(middle, state)
            &&& all_told(
                middle,
                after,
                state,
                handles,
                handles_after,
                before.present(terminal, now),
                now,
            )
        }
}

/// A connection has a bouncer that takes intents.
pub open spec fn bouncer_bound(state: AppState, conn_id: Seq<char>) -> bool {
    state.connections@.contains_key(conn_id) && state.connections@[conn_id].owns_history()
}

/// The next command on a connection goes through.
pub open spec fn can_take(handles: Map<Seq<char>, IrcHandle>, conn_id: Seq<char>) -> bool {
    handles.contains_key(conn_id) && handles[conn_id].sender.open()
}

/// A text that may be there.
pub open spec fn opt_str(text: Option<&str>) -> Option<Seq<char>> {
    match text {
        Some(t) => Some(t@),
        None => None,
    }
}

/// The intent of the user is kept, and the connection was told at once where it could be.
pub open spec fn intent_kept(
    p0: BouncerPresence,
    p1: BouncerPresence,
    state: AppState,
    h0: Map<Seq<char>, IrcHandle>,
    h1: Map<Seq<char>, IrcHandle>,
    conn_id: Seq<char>,
    reason: Option<Seq<char>>,
) -> bool {
    let mode = match reason {
        Some(reason) => ModeV::Manual(reason),
        None => ModeV::Present,
    };
    let scope = state.connections@[conn_id].key();
    let ok = can_take(h0, conn_id);
    &&& p1.browsers == p0.browsers
    &&& p1.revision == (if p0.revision == u64::MAX {
        u64::MAX
    } else {
        (p0.revision + 1) as u64
    })
    &&& p1.manual@ == p0.manual@.insert(scope, p1.manual@[scope])
    &&& p1.manual.keys() == with_key(p0.manual.keys(), scope)
    &&& opt_text(p1.manual@[scope].reason) == reason
    &&& p1.manual@[scope].revision == p1.revision
    &&& p1.manual@[scope].provider == (if p0.connections@.contains_key(conn_id) {
        p0.connections@[conn_id].provider
    } else {
        None
    })
    &&& p1.connections.keys() == p0.connections.keys()
    &&& if ok && p0.connections@.contains_key(conn_id) {
        &&& p1.connections@ == p0.connections@.insert(conn_id, p1.connections@[conn_id])
        &&& entry_told(p0.connections@[conn_id], p1.connections@[conn_id], mode, true, 0)
    } else {
        p1.connections@ == p0.connections@
    }
    &&& if ok {
        &&& h1 == h0.insert(conn_id, h1[conn_id])
        &&& handle_took(h0[conn_id], h1[conn_id], seq![away_command(mode)])
    } else {
        h1 == h0
    }
}

/// The user went away or came back: the intent is kept and told, a failure to tell it is reported, and
/// a round followed.
pub open spec fn away_set(
    p0: BouncerPresence,
    p1: BouncerPresence,
    s0: AppState,
    s1: AppState,
    h0: Map<Seq<char>, IrcHandle>,
    h1: Map<Seq<char>, IrcHandle>,
    conn_id: Seq<char>,
    reason: Option<Seq<char>>,
    terminal: bool,
    now: Clock,
) -> bool {
    &&& if can_take(h0, conn_id) {
        s1 == s0
    } else {
        event_shown(
            s0,
            s1,
            "Failed to send AWAY: "@ + (if h0.contains_key(conn_id) {
                h0[conn_id].sender.error@
            } else {
                "Not connected"@
            }),
            now.utc_ms,
        )
    }
    &&& exists|pm: BouncerPresence, hm: Map<Seq<char>, IrcHandle>|
        {
            &&& #[trigger] intent_kept(p0, pm, s0, h0, hm, conn_id, reason)
            &&& ticked(pm, p1, s1, hm, h1, terminal, now.mono_ms)
        }
}

impl BouncerPresence {
    /// Tells every bouncer connection what it is to be told.
    fn tell_all(&mut self, state: &AppState, handles: &mut StrMap<IrcHandle>, present: bool, now: u64)
        ensures
            all_told(*old(self), *final(self), *state, old(handles)@, final(handles)@, present, now),
            final(handles).keys() == old(handles).keys(),
    {
        let ghost before = *self;
        let ghost h0 = handles@;
        let n: usize = self.connections.len();
        let ghost keys = self.connections.keys();
        let mut i: usize = 0;
        while i < n
            invariant
                n == keys.len(),
                i <= n,
                keys.no_duplicates(),
                before.connections.keys() == keys,
                before.connections.ordered(),
                *self == (BouncerPresence { connections: self.connections, ..before }),
                self.connections.keys() == keys,
                self.connections@.dom() == before.connections@.dom(),
                handles@.dom() == h0.dom(),
                handles.keys() == old(handles).keys(),
                forall|j: int|
                    i <= j < n ==> self.connections@[#[trigger] keys[j]] == before.connections@[keys[j]],
                forall|j: int|
                    0 <= j < i ==> match before.wants(*state, h0, #[trigger] keys[j], present, now) {
                        None => self.connections@[keys[j]] == before.connections@[keys[j]],
                        Some(mode) => entry_told(
                            before.connections@[keys[j]],
                            self.connections@[keys[j]],
                            mode,
                            h0[keys[j]].sender.open(),
                            now,
                        ),
                    },
                forall|id: Seq<char>| #[trigger]
                    h0.contains_key(id) ==> if keys.take(i as int).contains(id) && before.wants(
                        *state,
                        h0,
                        id,
                        present,
                        now,
                    ) is Some {
                        handle_took(
                            h0[id],
                            handles@[id],
                            seq![away_command(before.wants(*state, h0, id, present, now)->0)],
                        )
                    } else {
                        handles@[id] == h0[id]
                    },
            decreases n - i,
        {
            let id = self.connections.key_at(i).clone();
            let ghost k = id@;
            let ghost was = self.connections@;
            let ghost hwas = handles@;
            proof {
                assert(k == keys[i as int]);
                assert(!keys.take(i as int).contains(k)) by {
                    if keys.take(i as int).contains(k) {
                        let a = keys.take(i as int).index_of(k);
                        assert(keys[a] == keys[i as int]);
                    }
                }
                assert(was[k] == before.connections@[k]);
                assert(keys.take(i + 1) =~= keys.take(i as int).push(k));
            }
            let mode = self.wanted(state, handles, i, present, now);
            assert(match mode {
                Some(m) => before.wants(*state, h0, k, present, now) == Some(m@),
                None => before.wants(*state, h0, k, present, now) is None,
            }) by {
                assert(hwas.contains_key(k) == h0.contains_key(k));
                match before.connections@[k].provider {
                    Some(p) => lemma_latest_same(
                        before,
                        *self,
                        p,
                        before.connections@[k].scope@,
                        before.manual.keys(),
                    ),
                    None => {},
                }
            }
            match mode {
                None => {},
                Some(mode) => {
                    let command = mode.command();
                    let ghost c = command@;
                    let ok = match handles.get_mut(id.as_str()) {
                        None => false,
                        Some(handle) => {
                            let ghost s0 = handle.sender;
                            let ok = handle.sender.send(command).is_ok();
                            proof {
                                lemma_took_one(s0, handle.sender, c);
                            }
                            ok
                        },
                    };
                    match self.connections.get_mut(id.as_str()) {
                        None => {},
                        Some(entry) => {
                            if ok {
                                entry.sent = Some(mode);
                                entry.attempted = None;
                            } else {
                                entry.attempted = Some(now);
                            }
                        },
                    }
                },
            }
            proof {
                assert(self.connections@.dom() =~= before.connections@.dom());
                assert(handles@.dom() =~= h0.dom());
                assert forall|j: int| i + 1 <= j < n implies self.connections@[#[trigger] keys[j]]
                    == before.connections@[keys[j]] by {
                    assert(keys[j] != keys[i as int]);
                }
                assert forall|j: int| 0 <= j < i + 1 implies match before.wants(
                    *state,
                    h0,
                    #[trigger] keys[j],
                    present,
                    now,
                ) {
                    None => self.connections@[keys[j]] == before.connections@[keys[j]],
                    Some(mode) => entry_told(
                        before.connections@[keys[j]],
                        self.connections@[keys[j]],
                        mode,
                        h0[keys[j]].sender.open(),
                        now,
                    ),
                } by {
                    if j < i {
                        assert(keys[j] != keys[i as int]);
                    }
                }
                assert forall|x: Seq<char>| #[trigger] h0.contains_key(x) implies if keys.take(
                    i + 1,
                ).contains(x) && before.wants(*state, h0, x, present, now) is Some {
                    handle_took(
                        h0[x],
                        handles@[x],
                        seq![away_command(before.wants(*state, h0, x, present, now)->0)],
                    )
                } else {
                    handles@[x] == h0[x]
                } by {
                    if x != k {
                        if keys.take(i + 1).contains(x) {
                            let a = keys.take(i + 1).index_of(x);
                            assert(keys.take(i as int)[a] == x);
                        }
                        if keys.take(i as int).contains(x) {
                            let a = keys.take(i as int).index_of(x);
                            assert(keys.take(i + 1)[a] == x);
                        }
                    } else {
                        assert(keys.take(i + 1)[i as int] == x);
                    }
                }
            }
            i = i + 1;
        }
        proof {
            assert(keys.take(n as int) =~= keys);
            assert forall|id: Seq<char>| #[trigger] before.connections@.contains_key(
                id,
            ) implies match before.wants(*state, h0, id, present, now) {
                None => self.connections@[id] == before.connections@[id],
                Some(mode) => entry_told(
                    before.connections@[id],
                    self.connections@[id],
                    mode,
                    h0[id].sender.open(),
                    now,
                ),
            } by {
                let j = keys.index_of(id);
                assert(keys[j] == id);
            }
        }
    }

    /// What the connection at a position is to be told now.
    fn wanted(&self, state: &AppState, handles: &StrMap<IrcHandle>, i: usize, present: bool, now: u64) -> (r:
        Option<Mode>)
        requires
            i < self.connections.keys().len(),
        ensures
            opt_mode(r) == self.wants(*state, handles@, self.connections.keys()[i as int], present, now),
    {
        let id = self.connections.key_at(i);
        let entry = self.connections.value_at(i);
        let c = match state.connections.get(id.as_str()) {
            None => {
                return None;
            },
            Some(c) => c,
        };
        if c.bouncer_control() || c.status != ConnectionStatus::Connected || !handles.contains(id.as_str()) {
            return None;
        }
        let provider = match entry.provider {
            None => {
                return None;
            },
            Some(provider) => provider,
        };
        let mode = self.find_desired(provider, entry.scope.as_str(), present);
        let known = match &entry.sent {
            Some(sent) => sent.same_as(&mode),
            None => false,
        };
        let tried = match entry.attempted {
            Some(t) => !has_elapsed(now, t, RETRY_MS),
            None => false,
        };
        if known || tried {
            None
        } else {
            Some(mode)
        }
    }

    /// Forgets networks that are gone, and tells every bouncer connection what it is to be told.
    pub fn tick_bouncer_presence(
        &mut self,
        state: &AppState,
        handles: &mut StrMap<IrcHandle>,
        terminal: bool,
        now: u64,
    )
        ensures
            ticked(
                *old(self),
                *final(self),
                *state,
                old(handles)@,
                final(handles)@,
                terminal,
                now,
            ),
            final(handles).keys() == old(handles).keys(),
    {
        let ghost before = *self;
        let present = self.is_present(terminal, now);
        self.prune(state);
        let ghost middle = *self;
        assert(before.pruned(middle, *state));
        self.tell_all(state, handles, present, now);
    }

    /// Keeps the intent of the user on the network of a connection, and tells the connection at
    /// once. `None` for a connection without a bouncer; otherwise whether it could be told.
    fn keep_intent(
        &mut self,
        state: &AppState,
        handles: &mut StrMap<IrcHandle>,
        conn_id: &str,
        reason: Option<&str>,
    ) -> (r: Option<bool>)
        ensures
            match r {
                None => {
                    &&& !bouncer_bound(*state, conn_id@)
                    &&& *final(self) == *old(self)
                    &&& *final(handles) == *old(handles)
                },
                Some(ok) => {
                    &&& bouncer_bound(*state, conn_id@)
                    &&& ok == can_take(old(handles)@, conn_id@)
                    &&& intent_kept(
                        *old(self),
                        *final(self),
                        *state,
                        old(handles)@,
                        final(handles)@,
                        conn_id@,
                        opt_str(reason),
                    )
                },
            },
            final(handles).keys() == old(handles).keys(),
    {
        let ghost h0 = handles@;
        let ghost c0 = self.connections@;
        let scope = match state.connections.get(conn_id) {
            None => {
                return None;
            },
            Some(c) => {
                if !c.server_owns_history() {
                    return None;
                }
                c.network_key().clone()
            },
        };
        let mode = match reason {
            Some(reason) => Mode::Manual(reason.to_string()),
            None => Mode::Present,
        };
        if self.revision < u64::MAX {
            self.revision = self.revision + 1;
        }
        let provider = match self.connections.get(conn_id) {
            Some(entry) => entry.provider,
            None => None,
        };
        let kept = match reason {
            Some(reason) => Some(reason.to_string()),
            None => None,
        };
        self.manual.insert(scope, ManualIntent { reason: kept, revision: self.revision, provider });
        let command = mode.command();
        let ghost c = command@;
        let ok = match handles.get_mut(conn_id) {
            None => false,
            Some(handle) => {
                let ghost s0 = handle.sender;
                let ok = handle.sender.send(command).is_ok();
                proof {
                    lemma_took_one(s0, handle.sender, c);
                }
                ok
            },
        };
        if ok {
            match self.connections.get_mut(conn_id) {
                None => {},
                Some(entry) => {
                    entry.sent = Some(mode);
                    entry.attempted = None;
                },
            }
        } else {
            assert(handles@ =~= h0);
        }
        Some(ok)
    }

    /// The user goes away, or comes back, on the network of a connection: the intent is kept, the
    /// connection is told at once or the failure is reported, and a round follows. Tells whether the
    /// connection has a bouncer that takes intents.
    pub fn set_bouncer_away(
        &mut self,
        state: &mut AppState,
        handles: &mut StrMap<IrcHandle>,
        conn_id: &str,
        reason: Option<&str>,
        terminal: bool,
        now: Clock,
    ) -> (r: bool)
        ensures
            r == bouncer_bound(*old(state), conn_id@),
            final(handles).keys() == old(handles).keys(),
            if r {
                away_set(
                    *old(self),
                    *final(self),
                    *old(state),
                    *final(state),
                    old(handles)@,
                    final(handles)@,
                    conn_id@,
                    opt_str(reason),
                    terminal,
                    now,
                )
            } else {
                *final(self) == *old(self) && *final(state) == *old(state) && *final(handles) == *old(
                    handles,
                )
            },
    {
        let ghost p0 = *self;
        let ghost s0 = *state;
        let ghost h0 = handles@;
        let ok = match self.keep_intent(state, handles, conn_id, reason) {
            None => {
                return false;
            },
            Some(ok) => ok,
        };
        let ghost pm = *self;
        let ghost hm = handles@;
        if !ok {
            let text = match handles.get(conn_id) {
                Some(handle) => concat("Failed to send AWAY: ", handle.sender.error.as_str()),
                None => concat("Failed to send AWAY: ", "Not connected"),
            };
            state.add_local_event(text, now.utc_ms);
        }
        assert(intent_kept(p0, pm, s0, h0, hm, conn_id@, opt_str(reason)));
        self.tick_bouncer_presence(state, handles, terminal, now.mono_ms);
        true
    }
}

/// A connection that was told a mode is not told it again while nothing else changes.
pub proof fn told_once(
    before: BouncerPresence,
    after: BouncerPresence,
    state: AppState,
    handles: Map<Seq<char>, IrcHandle>,
    handles_after: Map<Seq<char>, IrcHandle>,
    present: bool,
    now: u64,
    later: u64,
    id: Seq<char>,
)
    requires
        all_told(before, after, state, handles, handles_after, present, now),
        before.connections@.contains_key(id),
        before.wants(state, handles, id, present, now) is Some,
        handles[id].sender.open(),
    ensures
        after.wants(state, handles_after, id, present, later) is None,
{
    let entry = before.connections@[id];
    let mode = before.wants(state, handles, id, present, now)->0;
    assert(after.desired(entry.provider->0, entry.scope@, present) == before.desired(
        entry.provider->0,
        entry.scope@,
        present,
    )) by {
        lemma_latest_same(before, after, entry.provider->0, entry.scope@, before.manual.keys());
    }
}

proof fn lemma_latest_same(
    a: BouncerPresence,
    b: BouncerPresence,
    provider: Provider,
    scope: Seq<char>,
    scopes: Seq<Seq<char>>,
)
    requires
        a.manual@ == b.manual@,
    ensures
        a.latest(provider, scope, scopes) == b.latest(provider, scope, scopes),
    decreases scopes.len(),
{
    if scopes.len() > 0 {
        lemma_latest_same(a, b, provider, scope, scopes.drop_last());
    }
}

/// A Lurker bouncer is told the same for all networks of an account.
pub proof fn siblings_are_told_the_same(p: BouncerPresence, a: Seq<char>, b: Seq<char>, present: bool)
    requires
        account_of(a) == account_of(b),
    ensures
        p.desired(Provider::Lurker, a, present) == p.desired(Provider::Lurker, b, present),
{
    lemma_latest_of_account(p, a, b, p.manual.keys());
}

proof fn lemma_latest_of_account(p: BouncerPresence, a: Seq<char>, b: Seq<char>, scopes: Seq<Seq<char>>)
    requires
        account_of(a) == account_of(b),
    ensures
        p.latest(Provider::Lurker, a, scopes) == p.latest(Provider::Lurker, b, scopes),
    decreases scopes.len(),
{
    if scopes.len() > 0 {
        lemma_latest_of_account(p, a, b, scopes.drop_last());
    }
}

/// What the user asked for one network is never told to a network that it does not apply to: without an
/// intent of its own, or of its account where that is shared, a network is told who is there.
pub proof fn manual_away_stays_where_it_applies(
    p: BouncerPresence,
    provider: Provider,
    scope: Seq<char>,
    present: bool,
)
    requires
        forall|i: int|
            0 <= i < p.manual.keys().len() ==> !applies(provider, scope, #[trigger] p.manual.keys()[i]),
    ensures
        p.desired(provider, scope, present) == (if present {
            ModeV::Present
        } else {
            ModeV::Absent
        }),
{
    lemma_none_applies(p, provider, scope, p.manual.keys());
}

proof fn lemma_none_applies(
    p: BouncerPresence,
    provider: Provider,
    scope: Seq<char>,
    scopes: Seq<Seq<char>>,
)
    requires
        forall|i: int| 0 <= i < scopes.len() ==> !applies(provider, scope, #[trigger] scopes[i]),
    ensures
        p.latest(provider, scope, scopes) is None,
    decreases scopes.len(),
{
    if scopes.len() > 0 {
        let init = scopes.drop_last();
        assert forall|i: int| 0 <= i < init.len() implies !applies(provider, scope, #[trigger] init[i]) by {
            assert(init[i] == scopes[i]);
        }
        lemma_none_applies(p, provider, scope, init);
        assert(scopes.last() == scopes[scopes.len() - 1]);
    }
}

/// Selecting everything changes nothing.
proof fn lemma_selected_all<T>(s: Seq<T>, flags: Seq<bool>)
    requires
        s.len() == flags.len(),
        forall|i: int| 0 <= i < flags.len() ==> #[trigger] flags[i],
    ensures
        selected(s, flags) == s,
    decreases s.len(),
{
    if s.len() > 0 {
        assert forall|i: int| 0 <= i < flags.drop_last().len() implies #[trigger] flags.drop_last()[i] by {
            assert(flags[i]);
        }
        lemma_selected_all(s.drop_last(), flags.drop_last());
        assert(flags[flags.len() - 1]);
        assert(s.drop_last().push(s.last()) =~= s);
    }
}

/// Only changes are told: where nobody came or went and nothing else changed between two rounds, and
/// nothing that was to be told by the first failed, the second sends nothing; and a control connection,
/// one that is not connected, and one whose bouncer is not known are told nothing by either.
pub proof fn only_changes_are_told(
    p0: BouncerPresence,
    p1: BouncerPresence,
    p2: BouncerPresence,
    state: AppState,
    h0: Map<Seq<char>, IrcHandle>,
    h1: Map<Seq<char>, IrcHandle>,
    h2: Map<Seq<char>, IrcHandle>,
    terminal: bool,
    now: u64,
    later: u64,
)
    requires
        ticked(p0, p1, state, h0, h1, terminal, now),
        ticked(p1, p2, state, h1, h2, terminal, later),
        p1.manual.ordered(),
        forall|id: Seq<char>| #[trigger]
            p1.connections@.contains_key(id) ==> p1.connections@[id].attempted is None,
        forall|k: Seq<char>| #[trigger]
            p0.browsers@.contains_key(k) ==> browser_counts(p0.browsers@[k], now) == browser_counts(
                p0.browsers@[k],
                later,
            ),
    ensures
        h2 == h1,
        forall|id: Seq<char>| #[trigger]
            h0.contains_key(id) && (!state.connections@.contains_key(id)
                || state.connections@[id].control() || state.connections@[id].status
                != ConnectionStatus::Connected || (p0.connections@.contains_key(id)
                && p0.connections@[id].provider is None)) ==> h1[id] == h0[id],
{
    let present = p0.present(terminal, now);
    let m1 = choose|m: BouncerPresence|
        {
            &&& #[trigger] p0.pruned(m, state)
            &&& all_told(m, p1, state, h0, h1, present, now)
        };
    let again = p1.present(terminal, later);
    let m2 = choose|m: BouncerPresence|
        {
            &&& #[trigger] p1.pruned(m, state)
            &&& all_told(m, p2, state, h1, h2, again, later)
        };
    assert(p1.browsers == p0.browsers);
    assert(again == present) by {
        if !terminal && present {
            let k = choose|k: Seq<char>| #[trigger]
                p0.browsers@.contains_key(k) && browser_counts(p0.browsers@[k], now);
            assert(p1.browsers@.contains_key(k) && browser_counts(p1.browsers@[k], later));
        }
        if !terminal && again {
            let k = choose|k: Seq<char>| #[trigger]
                p1.browsers@.contains_key(k) && browser_counts(p1.browsers@[k], later);
            assert(p0.browsers@.contains_key(k) && browser_counts(p0.browsers@[k], now));
        }
    }
    let keys = p1.manual.keys();
    let flags = Seq::new(
        keys.len(),
        |i: int| intent_lives(state, keys[i], p1.manual@[keys[i]]),
    );
    assert forall|i: int| 0 <= i < flags.len() implies #[trigger] flags[i] by {
        assert(m1.manual@.contains_key(keys[i]));
    }
    lemma_selected_all(keys, flags);
    assert(m2.manual.keys() == keys);
    assert(m2.manual@ =~= p1.manual@) by {
        assert forall|k: Seq<char>| #[trigger] m2.manual@.contains_key(k) == p1.manual@.contains_key(k) by {
            if p1.manual@.contains_key(k) {
                assert(m1.manual@.contains_key(k));
            }
        }
    }
    assert forall|id: Seq<char>| #[trigger] h1.contains_key(id) implies h2[id] == h1[id] by {
        if m2.connections@.contains_key(id) {
            assert(p1.connections@.contains_key(id));
            assert(m1.connections@.contains_key(id));
            assert(p0.connections@.contains_key(id));
            assert(h0.contains_key(id));
            let entry = m1.connections@[id];
            match entry.provider {
                None => {},
                Some(provider) => {
                    lemma_latest_same(m1, m2, provider, entry.scope@, keys);
                    assert(m2.desired(provider, entry.scope@, present) == m1.desired(
                        provider,
                        entry.scope@,
                        present,
                    ));
                },
            }
            assert(m2.wants(state, h1, id, present, later) is None);
        }
    }
    assert(h2 =~= h1);
    assert forall|id: Seq<char>| #[trigger]
        h0.contains_key(id) && (!state.connections@.contains_key(id)
            || state.connections@[id].control() || state.connections@[id].status
            != ConnectionStatus::Connected || (p0.connections@.contains_key(id)
            && p0.connections@[id].provider is None)) implies h1[id] == h0[id] by {
        if m1.connections@.contains_key(id) {
            assert(p0.connections@.contains_key(id));
            assert(m1.connections@[id] == p0.connections@[id]);
            assert(m1.wants(state, h0, id, present, now) is None);
        }
    }
}

/// A connection accepted one more command, which says that the user is in a mode.
pub open spec fn away_said(before: IrcHandle, after: IrcHandle, params: Seq<Seq<char>>) -> bool {
    let sent = after.sender.accepted();
    &&& sent.len() == before.sender.accepted().len() + 1
    &&& sent.last().verb == "AWAY"@
    &&& sent.last().params == params
    &&& sent.last().tags.len() == 0
}

proof fn lemma_only_one_applies(
    p: BouncerPresence,
    provider: Provider,
    scope: Seq<char>,
    scopes: Seq<Seq<char>>,
)
    requires
        forall|i: int| 0 <= i < scopes.len() ==> #[trigger] scopes[i] == scope,
        scopes.len() > 0,
    ensures
        p.latest(provider, scope, scopes) == Some(scope),
    decreases scopes.len(),
{
    let init = scopes.drop_last();
    assert(scopes[scopes.len() - 1] == scope);
    if init.len() > 0 {
        assert forall|i: int| 0 <= i < init.len() implies #[trigger] init[i] == scope by {
            assert(init[i] == scopes[i]);
        }
        lemma_only_one_applies(p, provider, scope, init);
    }
}

/// Bouncers are told who is there. A connected bouncer whose kind is known, and which was told nothing yet or
/// something else, is told by a round: that the user is there where somebody is at the terminal or in a browser
/// that said so within the last forty-five seconds, that nobody is there where nobody is, and what the user
/// gave as a reason where the user asked to be away there.
pub proof fn bouncers_are_told_who_is_there(
    before: BouncerPresence,
    after: BouncerPresence,
    state: AppState,
    h0: Map<Seq<char>, IrcHandle>,
    h1: Map<Seq<char>, IrcHandle>,
    terminal: bool,
    now: u64,
    id: Seq<char>,
    browser: Seq<char>,
)
    requires
        ticked(before, after, state, h0, h1, terminal, now),
        before.connections@.contains_key(id),
        state.connections@.contains_key(id),
        before.connections@[id].scope@ == state.connections@[id].key(),
        before.connections@[id].provider is Some,
        before.connections@[id].attempted is None,
        state.connections@[id].owns_history(),
        !state.connections@[id].control(),
        state.connections@[id].status == ConnectionStatus::Connected,
        h0.contains_key(id),
        h0[id].sender.room is None,
        before.manual.ordered(),
        forall|k: Seq<char>| #[trigger] before.manual@.contains_key(k) ==> k == state.connections@[id].key(),
    ensures
        ({
            let scope = state.connections@[id].key();
            let known = opt_mode(before.connections@[id].sent);
            let reason = if before.manual@.contains_key(scope) {
                opt_text(before.manual@[scope].reason)
            } else {
                None
            };
            let somebody = terminal || (before.browsers@.contains_key(browser) && (
            before.browsers@[browser] matches Some(b) && b.present && now < b.updated + 45_000 && b.updated
                <= now));
            let nobody = !terminal && forall|k: Seq<char>| #[trigger]
                before.browsers@.contains_key(k) ==> !(before.browsers@[k] matches Some(b) && b.present && (now
                    < b.updated + 45_000 || now < b.updated));
            &&& reason is Some && known != Some(ModeV::Manual(reason->0)) ==> away_said(
                h0[id],
                h1[id],
                seq![reason->0],
            )
            &&& reason is None && somebody && known != Some(ModeV::Present) ==> away_said(
                h0[id],
                h1[id],
                Seq::empty(),
            )
            &&& reason is None && nobody && known != Some(ModeV::Absent) ==> away_said(h0[id], h1[id], seq!["*"@])
        }),
{
    let present = before.present(terminal, now);
    let scope = state.connections@[id].key();
    let m = choose|m: BouncerPresence|
        {
            &&& #[trigger] before.pruned(m, state)
            &&& all_told(m, after, state, h0, h1, present, now)
        };
    let provider = before.connections@[id].provider->0;
    assert(m.connections@.contains_key(id));
    if before.manual@.contains_key(scope) {
        assert(intent_lives(state, scope, before.manual@[scope])) by {
            assert(state.connections@.contains_key(id));
        }
        assert(m.manual@.contains_key(scope));
    }
    let keys = before.manual.keys();
    let flags = Seq::new(keys.len(), |i: int| intent_lives(state, keys[i], before.manual@[keys[i]]));
    assert forall|i: int| 0 <= i < keys.len() implies #[trigger] flags[i] by {
        assert(before.manual@.contains_key(keys[i]));
        assert(keys[i] == scope);
    }
    lemma_selected_all(keys, flags);
    assert(m.manual.keys() == keys);
    assert forall|i: int| 0 <= i < keys.len() implies #[trigger] keys[i] == scope by {
        assert(before.manual@.contains_key(keys[i]));
    }
    if keys.len() > 0 {
        assert(before.manual@.contains_key(keys[0]));
        lemma_only_one_applies(m, provider, scope, keys);
    } else {
        if before.manual@.contains_key(scope) {
            assert(keys.contains(scope));
        }
    }
    if before.browsers@.contains_key(browser) && browser_counts(before.browsers@[browser], now) {
        assert(present);
    }
    let want = m.wants(state, h0, id, present, now);
    if want is Some {
        let one = seq![away_command(want->0)];
        assert(one.take(1) =~= one);
        assert(h1[id].sender.accepted().last() == one[0]);
    }
}

/// An away message reaches the server: where the connection can take it, it goes out as the last command, and
/// what was asked for is remembered for the network either way.
pub proof fn intents_are_kept(
    p0: BouncerPresence,
    p1: BouncerPresence,
    state: AppState,
    h0: Map<Seq<char>, IrcHandle>,
    h1: Map<Seq<char>, IrcHandle>,
    conn_id: Seq<char>,
    reason: Option<Seq<char>>,
    other: Seq<char>,
)
    requires
        intent_kept(p0, p1, state, h0, h1, conn_id, reason),
    ensures
        ({
            let scope = state.connections@[conn_id].key();
            &&& p1.manual@.contains_key(scope)
            &&& opt_text(p1.manual@[scope].reason) == reason
            &&& p1.revision >= p0.revision
            &&& other != scope && p0.manual@.contains_key(other) ==> p1.manual@.contains_key(other)
                && p1.manual@[other] == p0.manual@[other]
        }),
        can_take(h0, conn_id) ==> {
            let said = h1[conn_id].sender.accepted();
            &&& said.drop_last() == h0[conn_id].sender.accepted()
            &&& said.last().verb == "AWAY"@
            &&& said.last().params == (match reason {
                Some(reason) => seq![reason],
                None => Seq::empty(),
            })
        },
        !can_take(h0, conn_id) ==> h1 == h0,
        other != conn_id && h0.contains_key(other) ==> h1.contains_key(other) && h1[other] == h0[other],
{
    if can_take(h0, conn_id) {
        let mode = match reason {
            Some(reason) => ModeV::Manual(reason),
            None => ModeV::Present,
        };
        let one = seq![away_command(mode)];
        assert(one.take(1) =~= one);
        assert(h1[conn_id].sender.accepted() =~= h0[conn_id].sender.accepted().push(away_command(mode)));
        assert(h1[conn_id].sender.accepted().drop_last() =~= h0[conn_id].sender.accepted());
    }
}


/// The latest wish counts: of the intents that apply to a network, one that no other comes after.
pub proof fn the_latest_wish_counts(
    p: BouncerPresence,
    provider: Provider,
    scope: Seq<char>,
    present: bool,
    k: Seq<char>,
)
    requires
        p.manual.ordered(),
        p.manual@.contains_key(k),
        applies(provider, scope, k),
        forall|other: Seq<char>| #[trigger]
            p.manual@.contains_key(other) && other != k && applies(provider, scope, other)
                ==> p.manual@[other].revision < p.manual@[k].revision,
    ensures
        p.desired(provider, scope, present) == (match p.manual@[k].reason {
            Some(reason) => ModeV::Manual(reason@),
            None => if present {
                ModeV::Present
            } else {
                ModeV::Absent
            },
        }),
{
    lemma_latest(p, provider, scope, p.manual.keys(), k);
    assert(p.manual.keys().contains(k));
}

proof fn lemma_latest(p: BouncerPresence, provider: Provider, scope: Seq<char>, scopes: Seq<Seq<char>>, k: Seq<char>)
    requires
        applies(provider, scope, k),
        forall|i: int|
            0 <= i < scopes.len() && #[trigger] scopes[i] != k && applies(provider, scope, scopes[i])
                ==> p.manual@[scopes[i]].revision < p.manual@[k].revision,
    ensures
        scopes.contains(k) ==> p.latest(provider, scope, scopes) == Some(k),
        p.latest(provider, scope, scopes) matches Some(b) ==> scopes.contains(b) && applies(provider, scope, b),
    decreases scopes.len(),
{
    if scopes.len() > 0 {
        let rest = scopes.drop_last();
        assert forall|i: int| 0 <= i < rest.len() && #[trigger] rest[i] != k && applies(provider, scope, rest[i])
            implies p.manual@[rest[i]].revision < p.manual@[k].revision by {
            assert(rest[i] == scopes[i]);
        }
        lemma_latest(p, provider, scope, rest, k);
        assert(scopes[scopes.len() - 1] == scopes.last());
        if p.latest(provider, scope, rest) is Some {
            let b = p.latest(provider, scope, rest)->0;
            assert(scopes[rest.index_of(b)] == b);
        }
        if scopes.contains(k) && scopes.last() != k {
            assert(rest[scopes.index_of(k)] == k);
        }
    }
}

} // verus!
