//! Watching who comes and goes.
use vstd::prelude::*;

use crate::app::{App, Clock, IrcHandle};
use crate::collections::StrMap;
use crate::state::{
    appended_at, buffer_id_seq, event_shown, event_v, id_after, make_buffer_id, AppState, Connection,
    ConnectionStatus,
};
use crate::text::{chars_of, lower, lower_seq, opt_text, same, texts};
use crate::wire::{command_views, Command, IrcSender};

verus! {

broadcast use vstd::string::group_string_axioms;

/// The most commands of one connection in a round.
pub const ROUND_COMMANDS: usize = 2;

/// The JSON text of everything that tells one account on one network from another.
pub uninterp spec fn account_json(
    key: Seq<char>,
    address: Seq<char>,
    port: u16,
    tls: bool,
    sasl_user: Option<Seq<char>>,
    sasl_mechanism: Option<Seq<char>>,
    username: Seq<char>,
    cert_path: Option<Seq<char>>,
    key_path: Option<Seq<char>>,
) -> Seq<char>;

/// `serde_json::to_string` of the values as an array. The text is named, and other values give another
/// text: the array can be read back out of it.
#[verifier::external_body]
fn account_text(
    key: &str,
    address: &str,
    port: u16,
    tls: bool,
    sasl_user: &Option<String>,
    sasl_mechanism: &Option<String>,
    username: &str,
    cert_path: &Option<String>,
    key_path: &Option<String>,
) -> (r: String)
    ensures
        r@ == account_json(
            key@,
            address@,
            port,
            tls,
            opt_text(*sasl_user),
            opt_text(*sasl_mechanism),
            username@,
            opt_text(*cert_path),
            opt_text(*key_path),
        ),
        forall|
            k: Seq<char>,
            a: Seq<char>,
            p: u16,
            t: bool,
            su: Option<Seq<char>>,
            sm: Option<Seq<char>>,
            u: Seq<char>,
            cp: Option<Seq<char>>,
            kp: Option<Seq<char>>,
        | #[trigger]
            account_json(k, a, p, t, su, sm, u, cp, kp) == r@ ==> {
                &&& k == key@
                &&& a == address@
                &&& p == port
                &&& t == tls
                &&& su == opt_text(*sasl_user)
                &&& sm == opt_text(*sasl_mechanism)
                &&& u == username@
                &&& cp == opt_text(*cert_path)
                &&& kp == opt_text(*key_path)
            },
{
    match serde_json::to_string(
        &(key, address, port, tls, sasl_user, sasl_mechanism, username, cert_path, key_path),
    ) {
        Ok(text) => text,
        Err(_) => String::new(),
    }
}

/// The account and the network that a connection's watch list belongs to.
pub open spec fn monitor_scope(c: Connection, default_user: Seq<char>) -> Seq<char> {
    let config = c.origin_config;
    account_json(
        c.key(),
        config.address@,
        config.port,
        config.tls,
        opt_text(config.sasl_user),
        opt_text(config.sasl_mechanism),
        login_name(c, default_user),
        opt_text(config.client_cert_path),
        opt_text(config.sasl_key_path),
    )
}

/// The name under which a connection logs in.
pub open spec fn login_name(c: Connection, default_user: Seq<char>) -> Seq<char> {
    match c.origin_config.username {
        Some(user) => user@,
        None => default_user,
    }
}

/// Two connections are of one account on one network.
pub open spec fn same_account(a: Connection, a_user: Seq<char>, b: Connection, b_user: Seq<char>) -> bool {
    &&& a.key() == b.key()
    &&& a.origin_config.address@ == b.origin_config.address@
    &&& a.origin_config.port == b.origin_config.port
    &&& a.origin_config.tls == b.origin_config.tls
    &&& opt_text(a.origin_config.sasl_user) == opt_text(b.origin_config.sasl_user)
    &&& opt_text(a.origin_config.sasl_mechanism) == opt_text(b.origin_config.sasl_mechanism)
    &&& login_name(a, a_user) == login_name(b, b_user)
    &&& opt_text(a.origin_config.client_cert_path) == opt_text(b.origin_config.client_cert_path)
    &&& opt_text(a.origin_config.sasl_key_path) == opt_text(b.origin_config.sasl_key_path)
}

/// The account and the network that a connection's watch list belongs to.
fn scope_of(c: &Connection, default_user: &str) -> (r: String)
    ensures
        r@ == monitor_scope(*c, default_user@),
        forall|d: Connection, user: Seq<char>|
            #[trigger] monitor_scope(d, user) == r@ ==> same_account(d, user, *c, default_user@),
{
    let config = &c.origin_config;
    let user = match &config.username {
        Some(user) => user.as_str(),
        None => default_user,
    };
    account_text(
        c.network_key().as_str(),
        config.address.as_str(),
        config.port,
        config.tls,
        &config.sasl_user,
        &config.sasl_mechanism,
        user,
        &config.client_cert_path,
        &config.sasl_key_path,
    )
}

/// A change of the watch list.
#[derive(Debug)]
pub enum Change {
    Add(Vec<String>),
    Remove(Vec<String>),
    Clear,
}

/// The watch list of one connection.
pub struct MonitorState {
    pub scope: String,
    pub mapping: String,
    pub supported: bool,
    pub show_list: bool,
    pub request_status: bool,
    /// The server did not answer a list in time.
    pub timed_out: bool,
    /// The list as lines; empty where nobody is watched.
    pub rows: Vec<String>,
    /// Changes that are not in commands yet.
    pub changes: Vec<Change>,
    /// Commands that are still to be sent.
    pub outgoing: Vec<Command>,
}

impl MonitorState {
    /// An empty watch list.
    pub open spec fn fresh(&self, scope: Seq<char>, mapping: Seq<char>, supported: bool) -> bool {
        &&& self.scope@ == scope
        &&& self.mapping@ == mapping
        &&& self.supported == supported
        &&& !self.show_list
        &&& !self.request_status
        &&& !self.timed_out
        &&& self.rows@.len() == 0
        &&& self.changes@.len() == 0
        &&& self.outgoing@.len() == 0
    }

    /// An empty watch list.
    pub fn new(scope: String, mapping: &str, supported: bool) -> (r: MonitorState)
        ensures
            r.fresh(scope@, mapping@, supported),
    {
        MonitorState {
            scope,
            mapping: mapping.to_string(),
            supported,
            show_list: false,
            request_status: false,
            timed_out: false,
            rows: Vec::new(),
            changes: Vec::new(),
            outgoing: Vec::new(),
        }
    }

    /// The watch list as lines.
    pub open spec fn lines(&self) -> Seq<Seq<char>> {
        if self.rows@.len() == 0 {
            seq!["MONITOR list is empty"@]
        } else {
            texts(self.rows@)
        }
    }

    /// The watch list as lines.
    pub fn rows(&self) -> (r: Vec<String>)
        ensures
            texts(r@) == self.lines(),
    {
        if self.rows.len() == 0 {
            let mut r: Vec<String> = Vec::new();
            r.push("MONITOR list is empty".to_string());
            assert(texts(r@) =~= seq!["MONITOR list is empty"@]);
            r
        } else {
            crate::state::copy_texts(&self.rows)
        }
    }

    /// How many commands are tried in a round.
    pub open spec fn tries(&self) -> nat {
        if self.outgoing@.len() < ROUND_COMMANDS {
            self.outgoing@.len()
        } else {
            ROUND_COMMANDS as nat
        }
    }

    /// The commands of a round go out, up to the first failure; what went out is not sent again.
    pub open spec fn round_sent(&self, after: MonitorState, s0: IrcSender, s1: IrcSender) -> bool {
        let n = self.tries();
        &&& s0.took(s1, command_views(self.outgoing@).take(n as int))
        &&& after == (MonitorState { outgoing: after.outgoing, ..*self })
        &&& after.outgoing@ == self.outgoing@.skip(s0.passing(n) as int)
    }

    /// Sends the commands of one round, up to the first failure.
    pub fn send_due(&mut self, sender: &mut IrcSender)
        ensures
            old(self).round_sent(*final(self), *old(sender), *final(sender)),
    {
        let ghost before = *self;
        let ghost s0 = *sender;
        let mut batch: Vec<Command> = Vec::new();
        let mut i: usize = 0;
        while i < ROUND_COMMANDS && i < self.outgoing.len()
            invariant
                i <= before.tries(),
                *self == before,
                command_views(batch@) =~= command_views(before.outgoing@).take(i as int),
            decreases ROUND_COMMANDS - i,
        {
            let c = copy_command(&self.outgoing[i]);
            let ghost was = command_views(batch@);
            let ghost cv = c@;
            assert(cv == command_views(before.outgoing@)[i as int]);
            batch.push(c);
            assert(command_views(batch@) =~= was.push(cv));
            i = i + 1;
        }
        assert(i == before.tries());
        let sent: usize = sender.send_all(batch);
        let mut k: usize = 0;
        assert(self.outgoing@ =~= before.outgoing@.skip(0));
        while k < sent
            invariant
                k <= sent <= before.outgoing@.len(),
                self.outgoing@ == before.outgoing@.skip(k as int),
                *self == (MonitorState { outgoing: self.outgoing, ..before }),
            decreases sent - k,
        {
            let _done = self.outgoing.remove(0);
            assert(self.outgoing@ =~= before.outgoing@.skip(k + 1));
            k = k + 1;
        }
    }

    /// Forgets what was still to be sent, as for a new transport.
    pub fn reset_transport(&mut self)
        ensures
            *final(self) == (MonitorState { outgoing: final(self).outgoing, ..*old(self) }),
            final(self).outgoing@.len() == 0,
    {
        self.outgoing = Vec::new();
    }
}

/// Forgets what a connection's watch list was still to send.
pub fn reset_monitor(monitors: &mut StrMap<MonitorState>, id: &str)
    ensures
        if old(monitors)@.contains_key(id@) {
            &&& final(monitors)@ == old(monitors)@.insert(id@, final(monitors)@[id@])
            &&& final(monitors)@[id@] == (MonitorState {
                outgoing: final(monitors)@[id@].outgoing,
                ..old(monitors)@[id@]
            })
            &&& final(monitors)@[id@].outgoing@.len() == 0
        } else {
            final(monitors)@ == old(monitors)@
        },
{
    match monitors.get_mut(id) {
        None => {},
        Some(m) => m.reset_transport(),
    }
}

/// A copy of a command.
pub fn copy_command(c: &Command) -> (r: Command)
    ensures
        r@ == c@,
{
    let mut tags: Vec<crate::wire::Tag> = Vec::new();
    let ghost all = crate::wire::tag_views(c.tags@);
    let mut i: usize = 0;
    while i < c.tags.len()
        invariant
            i <= c.tags@.len(),
            all == crate::wire::tag_views(c.tags@),
            crate::wire::tag_views(tags@) =~= all.take(i as int),
        decreases c.tags@.len() - i,
    {
        let ghost was = crate::wire::tag_views(tags@);
        let t = crate::wire::Tag { key: c.tags[i].key.clone(), value: c.tags[i].value.clone() };
        assert(t@ == all[i as int]);
        let ghost tv = t@;
        tags.push(t);
        assert(crate::wire::tag_views(tags@) =~= was.push(tv));
        i = i + 1;
    }
    assert(all.take(all.len() as int) =~= all);
    Command { tags, verb: c.verb.clone(), params: crate::state::copy_texts(&c.params) }
}

/// A connection's watch list is that of its account and network, and knows what the server can do.
pub open spec fn ensured(
    before: Map<Seq<char>, MonitorState>,
    after: Map<Seq<char>, MonitorState>,
    id: Seq<char>,
    c: Connection,
    default_user: Seq<char>,
) -> bool {
    let scope = monitor_scope(c, default_user);
    &&& after == before.insert(id, after[id])
    &&& if before.contains_key(id) && before[id].scope@ == scope {
        &&& after[id] == (MonitorState {
            mapping: after[id].mapping,
            supported: c.monitor_supported,
            ..before[id]
        })
        &&& after[id].mapping@ == c.casemapping@
    } else {
        after[id].fresh(scope, c.casemapping@, c.monitor_supported)
    }
}

/// Brings a connection's watch list up to date with its account, network and server; one that
/// belongs to another account is dropped before anything of it is sent: whatever it is in that the two
/// accounts differ, nothing of the old list is left.
pub fn ensure_monitor(
    monitors: &mut StrMap<MonitorState>,
    state: &AppState,
    default_user: &str,
    id: &str,
) -> (r: bool)
    ensures
        r == state.connections@.contains_key(id@),
        if r {
            ensured(old(monitors)@, final(monitors)@, id@, state.connections@[id@], default_user@)
        } else {
            *final(monitors) == *old(monitors)
        },
        r && old(monitors)@.contains_key(id@) ==> final(monitors).keys() == old(monitors).keys(),
        r && old(monitors)@.contains_key(id@) ==> forall|d: Connection, user: Seq<char>|
            #[trigger] monitor_scope(d, user) == old(monitors)@[id@].scope@ && !same_account(
                d,
                user,
                state.connections@[id@],
                default_user@,
            ) ==> {
                &&& final(monitors)@[id@].rows@.len() == 0
                &&& final(monitors)@[id@].changes@.len() == 0
                &&& final(monitors)@[id@].outgoing@.len() == 0
            },
{
    let c = match state.connections.get(id) {
        None => {
            return false;
        },
        Some(c) => c,
    };
    let scope = scope_of(c, default_user);
    let current = match monitors.get(id) {
        None => false,
        Some(m) => same(m.scope.as_str(), scope.as_str()),
    };
    if current {
        match monitors.get_mut(id) {
            None => {},
            Some(m) => {
                m.mapping = c.casemapping.clone();
                m.supported = c.monitor_supported;
            },
        }
    } else {
        monitors.insert(
            id.to_string(),
            MonitorState::new(scope, c.casemapping.as_str(), c.monitor_supported),
        );
    }
    true
}

/// `s` with every percent sign doubled.
pub open spec fn doubled(s: Seq<char>) -> Seq<char>
    decreases s.len(),
{
    if s.len() == 0 {
        s
    } else if s.last() == '%' {
        doubled(s.drop_last()).push('%').push('%')
    } else {
        doubled(s.drop_last()).push(s.last())
    }
}

/// `s` with every percent sign doubled, so that a theme does not take it for one of its own.
pub fn escape_percent(s: &str) -> (r: String)
    ensures
        r@ == doubled(s@),
{
    let v = chars_of(s);
    let mut r = String::new();
    let mut i: usize = 0;
    assert(v@.take(0) =~= Seq::<char>::empty());
    while i < v.len()
        invariant
            v@ == s@,
            i <= v@.len(),
            r@ == doubled(v@.take(i as int)),
        decreases v@.len() - i,
    {
        assert(v@.take(i + 1).drop_last() =~= v@.take(i as int));
        assert(v@.take(i + 1).last() == v@[i as int]);
        r.push(v[i]);
        if v[i] == '%' {
            r.push('%');
        }
        i = i + 1;
    }
    assert(v@.take(v@.len() as int) =~= v@);
    r
}

/// A line of the watch list is reported in the server buffer of its connection.
pub open spec fn monitor_reported(
    before: AppState,
    after: AppState,
    id: Seq<char>,
    text: Seq<char>,
    now_ms: i64,
) -> bool {
    if before.connections@.contains_key(id) {
        &&& after == (AppState {
            buffers: after.buffers,
            message_counter: id_after(before.message_counter),
            ..before
        })
        &&& appended_at(
            before.buffers,
            after.buffers,
            buffer_id_seq(id, before.connections@[id].label@),
            seq![event_v(id_after(before.message_counter), now_ms, doubled(text), None)],
        )
    } else {
        after == before
    }
}

/// Reports a line of the watch list in the server buffer of its connection.
pub fn monitor_event(state: &mut AppState, id: &str, text: &str, now_ms: i64)
    ensures
        monitor_reported(*old(state), *final(state), id@, text@, now_ms),
{
    let buffer = match state.connections.get(id) {
        None => {
            return;
        },
        Some(c) => make_buffer_id(id, c.label.as_str()),
    };
    state.add_event(buffer.as_str(), escape_percent(text), None, now_ms);
}

/// Lines of the watch list are reported one after the other.
pub open spec fn rows_reported(
    before: AppState,
    after: AppState,
    id: Seq<char>,
    rows: Seq<Seq<char>>,
    now_ms: i64,
) -> bool
    decreases rows.len(),
{
    if rows.len() == 0 {
        after == before
    } else {
        exists|middle: AppState|
            rows_reported(before, middle, id, rows.drop_last(), now_ms) && #[trigger] monitor_reported(
                middle,
                after,
                id,
                rows.last(),
                now_ms,
            )
    }
}

/// Reports lines of the watch list.
pub fn report_rows(state: &mut AppState, id: &str, rows: &Vec<String>, now_ms: i64)
    ensures
        rows_reported(*old(state), *final(state), id@, texts(rows@), now_ms),
{
    let ghost before = *state;
    let ghost all = texts(rows@);
    let mut i: usize = 0;
    assert(all.take(0) =~= Seq::<Seq<char>>::empty());
    while i < rows.len()
        invariant
            i <= rows@.len(),
            all == texts(rows@),
            rows_reported(before, *state, id@, all.take(i as int), now_ms),
        decreases rows@.len() - i,
    {
        let ghost middle = *state;
        monitor_event(state, id, rows[i].as_str(), now_ms);
        proof {
            assert(all.take(i + 1).drop_last() =~= all.take(i as int));
            assert(all.take(i + 1).last() == rows@[i as int]@);
            assert(monitor_reported(middle, *state, id@, all.take(i + 1).last(), now_ms));
        }
        i = i + 1;
    }
    assert(all.take(all.len() as int) =~= all);
}

/// A connection that watches someone showed what a message brought. `handled` tells whether the message
/// was only about that.
pub open spec fn monitor_observed(
    m0: Map<Seq<char>, MonitorState>,
    m1: Map<Seq<char>, MonitorState>,
    s0: AppState,
    s1: AppState,
    id: Seq<char>,
    default_user: Seq<char>,
    handled: bool,
    rows: Seq<Seq<char>>,
    now_ms: i64,
    r: bool,
) -> bool {
    if m0.contains_key(id) && s0.connections@.contains_key(id) {
        &&& r == handled
        &&& ensured(m0, m1, id, s0.connections@[id], default_user)
        &&& rows_reported(s0, s1, id, rows, now_ms)
    } else {
        !r && m1 == m0 && s1 == s0
    }
}

/// What a server said about the watch list is reported; the watch list says what that was, and
/// whether the message was one for it.
pub fn observe_monitor(
    monitors: &mut StrMap<MonitorState>,
    state: &mut AppState,
    default_user: &str,
    id: &str,
    handled: bool,
    output: &Vec<String>,
    now_ms: i64,
) -> (r: bool)
    ensures
        monitor_observed(
            old(monitors)@,
            final(monitors)@,
            *old(state),
            *final(state),
            id@,
            default_user@,
            handled,
            texts(output@),
            now_ms,
            r,
        ),
{
    if !monitors.contains(id) {
        return false;
    }
    if !ensure_monitor(monitors, state, default_user, id) {
        return false;
    }
    report_rows(state, id, output, now_ms);
    handled
}

/// Whether a connection's watch list may be sent.
pub open spec fn may_send(state: AppState, handles: Map<Seq<char>, IrcHandle>, id: Seq<char>) -> bool {
    &&& state.connections@.contains_key(id)
    &&& state.connections@[id].status == ConnectionStatus::Connected
    &&& !state.connections@[id].control()
    &&& state.connections@[id].monitor_supported
    &&& handles.contains_key(id)
}

/// What is said of a list that the server did not answer in time.
pub const TIMED_OUT: &'static str =
    "MONITOR list timed out; cached data is retained. Reconnect if its end reply does not arrive.";

/// Everything that a round over the watch lists touches.
pub struct MonitorWorld {
    pub monitors: Map<Seq<char>, MonitorState>,
    pub handles: Map<Seq<char>, IrcHandle>,
    pub state: AppState,
}

/// One connection's part of a round: its watch list is brought up to date, an unanswered list is
/// reported once, and what is due is sent.
pub open spec fn monitor_ticked(
    w0: MonitorWorld,
    w1: MonitorWorld,
    default_user: Seq<char>,
    id: Seq<char>,
    now_ms: i64,
) -> bool {
    exists|m: Map<Seq<char>, MonitorState>|
        {
            let quiet = MonitorState { timed_out: false, ..m[id] };
            &&& #[trigger] ensured(w0.monitors, m, id, w0.state.connections@[id], default_user)
            &&& if m[id].timed_out {
                monitor_reported(w0.state, w1.state, id, TIMED_OUT@, now_ms)
            } else {
                w1.state == w0.state
            }
            &&& w1.monitors == m.insert(id, w1.monitors[id])
            &&& if may_send(w0.state, w0.handles, id) {
                &&& w1.handles == w0.handles.insert(id, w1.handles[id])
                &&& w1.handles[id] == (IrcHandle { sender: w1.handles[id].sender, ..w0.handles[id] })
                &&& quiet.round_sent(
                    w1.monitors[id],
                    w0.handles[id].sender,
                    w1.handles[id].sender,
                )
            } else {
                w1.monitors[id] == quiet && w1.handles == w0.handles
            }
        }
}

/// A round over some connections, one after the other.
pub open spec fn monitors_ticked(
    w0: MonitorWorld,
    w1: MonitorWorld,
    default_user: Seq<char>,
    ids: Seq<Seq<char>>,
    now_ms: i64,
) -> bool
    decreases ids.len(),
{
    if ids.len() == 0 {
        w1 == w0
    } else {
        exists|w: MonitorWorld|
            {
                &&& monitors_ticked(w0, w, default_user, ids.drop_last(), now_ms)
                &&& #[trigger] monitor_ticked(w, w1, default_user, ids.last(), now_ms)
            }
    }
}

/// Runs one connection's part of a round.
fn tick_one(
    monitors: &mut StrMap<MonitorState>,
    handles: &mut StrMap<IrcHandle>,
    state: &mut AppState,
    default_user: &str,
    id: &str,
    now_ms: i64,
)
    requires
        old(state).connections@.contains_key(id@),
        old(monitors)@.contains_key(id@),
    ensures
        final(handles).keys() == old(handles).keys(),
        monitor_ticked(
            (MonitorWorld { monitors: old(monitors)@, handles: old(handles)@, state: *old(state) }),
            (MonitorWorld { monitors: final(monitors)@, handles: final(handles)@, state: *final(state) }),
            default_user@,
            id@,
            now_ms,
        ),
        final(monitors).keys() == old(monitors).keys(),
        final(state).connections == old(state).connections,
{
    let ghost m0 = monitors@;
    let ghost h0 = handles@;
    let ghost st0 = *state;
    let _there = ensure_monitor(monitors, state, default_user, id);
    let ghost middle = monitors@;
    assert(ensured(m0, middle, id@, state.connections@[id@], default_user@));
    let mut late = false;
    match monitors.get_mut(id) {
        None => {},
        Some(m) => {
            late = m.timed_out;
            m.timed_out = false;
        },
    }
    let ghost quiet = monitors@;
    if late {
        monitor_event(state, id, TIMED_OUT, now_ms);
    }
    let allowed = match state.connections.get(id) {
        None => false,
        Some(c) => c.status == ConnectionStatus::Connected && !c.bouncer_control() && c.monitor_supported,
    };
    if allowed {
        match monitors.get_mut(id) {
            None => {},
            Some(m) => match handles.get_mut(id) {
                None => {},
                Some(handle) => m.send_due(&mut handle.sender),
            },
        }
    }
    proof {
        let w0 = MonitorWorld { monitors: m0, handles: h0, state: st0 };
        let w1 = MonitorWorld { monitors: monitors@, handles: handles@, state: *state };
        assert(ensured(w0.monitors, middle, id@, w0.state.connections@[id@], default_user@));
        assert(quiet =~= middle.insert(id@, quiet[id@]));
        assert(quiet[id@] == (MonitorState { timed_out: false, ..middle[id@] }));
        assert(w1.monitors =~= middle.insert(id@, w1.monitors[id@]));
        if !may_send(st0, h0, id@) {
            assert(monitors@ =~= quiet);
            assert(handles@ =~= h0);
        } else {
            assert(handles@ =~= h0.insert(id@, handles@[id@]));
        }
    }
}

/// The watch lists whose connection is still there.
pub open spec fn live_only(
    before: Map<Seq<char>, MonitorState>,
    after: Map<Seq<char>, MonitorState>,
    state: AppState,
) -> bool {
    &&& forall|k: Seq<char>| #[trigger]
        after.contains_key(k) <==> before.contains_key(k) && state.connections@.contains_key(k)
    &&& forall|k: Seq<char>| #[trigger] after.contains_key(k) ==> after[k] == before[k]
}

/// A list holds every key once.
pub open spec fn lists_keys(ids: Seq<Seq<char>>, m: Map<Seq<char>, MonitorState>) -> bool {
    &&& ids.no_duplicates()
    &&& forall|k: Seq<char>| #[trigger] m.contains_key(k) <==> ids.contains(k)
}

/// A whole round.
pub open spec fn round_done(
    w0: MonitorWorld,
    w1: MonitorWorld,
    default_user: Seq<char>,
    now_ms: i64,
) -> bool {
    exists|live: Map<Seq<char>, MonitorState>, ids: Seq<Seq<char>>|
        {
            &&& #[trigger] live_only(w0.monitors, live, w0.state)
            &&& #[trigger] lists_keys(ids, live)
            &&& monitors_ticked((MonitorWorld { monitors: live, ..w0 }), w1, default_user, ids, now_ms)
        }
}

/// Forgets the watch lists of connections that are gone, and sends what is due of the others.
pub fn tick_monitors(
    monitors: &mut StrMap<MonitorState>,
    handles: &mut StrMap<IrcHandle>,
    state: &mut AppState,
    default_user: &str,
    now_ms: i64,
)
    ensures
        final(handles).keys() == old(handles).keys(),
        round_done(
            (MonitorWorld { monitors: old(monitors)@, handles: old(handles)@, state: *old(state) }),
            (MonitorWorld { monitors: final(monitors)@, handles: final(handles)@, state: *final(state) }),
            default_user@,
            now_ms,
        ),
{
    let ghost m0 = monitors@;
    let ghost w0 = MonitorWorld { monitors: m0, handles: handles@, state: *state };
    let ghost keys = monitors.keys();
    let mut keep: Vec<bool> = Vec::new();
    let k: usize = monitors.len();
    let mut a: usize = 0;
    while a < k
        invariant
            k == keys.len(),
            keys == monitors.keys(),
            monitors@ == m0,
            a <= k,
            keep@.len() == a,
            monitors.ordered(),
            forall|j: int| 0 <= j < a ==> (#[trigger] keep@[j] <==> state.connections@.contains_key(keys[j])),
        decreases k - a,
    {
        keep.push(state.connections.contains(monitors.key_at(a).as_str()));
        a = a + 1;
    }
    assert(monitors.ordered());
    monitors.retain(&keep);
    let ghost live = monitors@;
    proof {
        assert forall|x: Seq<char>| #[trigger] live.contains_key(x) <==> m0.contains_key(x)
            && state.connections@.contains_key(x) by {
            if m0.contains_key(x) {
                let j = keys.index_of(x);
                assert(keys[j] == x);
                assert(keep@[j] <==> state.connections@.contains_key(keys[j]));
            }
        }
        assert(live_only(w0.monitors, live, w0.state));
    }
    let n: usize = monitors.len();
    let ghost ids = monitors.keys();
    let ghost w = MonitorWorld { monitors: live, ..w0 };
    let mut i: usize = 0;
    assert(ids.take(0) =~= Seq::<Seq<char>>::empty());
    assert(lists_keys(ids, live));
    assert(forall|j: int| 0 <= j < n ==> live.contains_key(#[trigger] ids[j]));
    while i < n
        invariant
            n == ids.len(),
            ids == monitors.keys(),
            handles.keys() == old(handles).keys(),
            i <= n,
            forall|j: int| 0 <= j < n ==> state.connections@.contains_key(#[trigger] ids[j]),
            monitors_ticked(
                w,
                (MonitorWorld { monitors: monitors@, handles: handles@, state: *state }),
                default_user@,
                ids.take(i as int),
                now_ms,
            ),
        decreases n - i,
    {
        let id = monitors.key_at(i).clone();
        let ghost wm = MonitorWorld { monitors: monitors@, handles: handles@, state: *state };
        assert(id@ == ids[i as int]);
        tick_one(monitors, handles, state, default_user, id.as_str(), now_ms);
        proof {
            let wn = MonitorWorld { monitors: monitors@, handles: handles@, state: *state };
            assert(ids.take(i + 1).drop_last() =~= ids.take(i as int));
            assert(ids.take(i + 1).last() == id@);
            assert(monitor_ticked(wm, wn, default_user@, ids.take(i + 1).last(), now_ms));
        }
        i = i + 1;
    }
    proof {
        assert(ids.take(n as int) =~= ids);
        let w1 = MonitorWorld { monitors: monitors@, handles: handles@, state: *state };
        assert(live_only(w0.monitors, live, w0.state));
        assert(lists_keys(ids, live));
        assert(monitors_ticked(w, w1, default_user@, ids, now_ms));
    }
}

/// What `/monitor` asks for.
#[derive(Debug)]
pub enum MonitorRequest {
    /// Nothing that can be done here.
    Refused,
    /// The targets were not understood.
    BadTargets,
    /// The command was not understood.
    Usage,
    /// The watch list is shown.
    Show,
    /// The watch list cannot take the change.
    Rejected,
    /// The watch list changes.
    Changed,
    /// The server is asked for its list.
    List,
    /// The server is asked who is there.
    Status,
}

/// What an action with so many arguments asks for.
pub open spec fn requested_by(action: Seq<char>, count: nat, targets_ok: bool) -> MonitorRequest {
    if action == "+"@ || action == "add"@ || action == "-"@ || action == "remove"@ {
        if targets_ok {
            MonitorRequest::Changed
        } else {
            MonitorRequest::BadTargets
        }
    } else if (action == "clear"@ || action == "c"@) && count == 1 {
        MonitorRequest::Changed
    } else if (action == "list"@ || action == "l"@) && count <= 1 {
        MonitorRequest::List
    } else if (action == "status"@ || action == "s"@) && count == 1 {
        MonitorRequest::Status
    } else if action == "show"@ && count == 1 {
        MonitorRequest::Show
    } else {
        MonitorRequest::Usage
    }
}

/// The action that the arguments of `/monitor` name.
pub open spec fn action_of(args: Seq<Seq<char>>) -> Seq<char> {
    if args.len() > 0 {
        lower_seq(args[0])
    } else {
        "list"@
    }
}

/// What the arguments of `/monitor` ask for.
pub open spec fn requested(args: Seq<Seq<char>>, targets_ok: bool) -> MonitorRequest {
    requested_by(action_of(args), args.len(), targets_ok)
}

/// What becomes of a request: a change that the watch list cannot take is rejected.
pub open spec fn answered(request: MonitorRequest, rejected: bool) -> MonitorRequest {
    if request is Changed && rejected {
        MonitorRequest::Rejected
    } else {
        request
    }
}

/// What is wrong with a request.
pub open spec fn complaint(
    r: MonitorRequest,
    targets: Result<Vec<String>, String>,
    rejected: Option<String>,
) -> Seq<char> {
    match (r, targets, rejected) {
        (MonitorRequest::Rejected, _, Some(error)) => error@,
        (MonitorRequest::BadTargets, Err(error), _) => error@,
        _ => Seq::empty(),
    }
}

/// The change that an action asks for.
pub open spec fn change_by(action: Seq<char>, targets: Result<Vec<String>, String>) -> Change {
    match targets {
        Ok(names) => if action == "+"@ || action == "add"@ {
            Change::Add(names)
        } else if action == "-"@ || action == "remove"@ {
            Change::Remove(names)
        } else {
            Change::Clear
        },
        Err(_) => Change::Clear,
    }
}

/// The change that the arguments of `/monitor` ask for.
pub open spec fn requested_change(args: Seq<Seq<char>>, targets: Result<Vec<String>, String>) -> Change {
    change_by(action_of(args), targets)
}

/// What `/monitor` does to the watch list of the active connection.
pub open spec fn list_commanded(
    m: MonitorState,
    after: MonitorState,
    r: MonitorRequest,
    change: Change,
) -> bool {
    match r {
        MonitorRequest::List => after == (MonitorState { show_list: true, ..m }),
        MonitorRequest::Status => after == (MonitorState { request_status: true, ..m }),
        MonitorRequest::Changed => {
            &&& after == (MonitorState { changes: after.changes, ..m })
            &&& after.changes@ == m.changes@.push(change)
        },
        _ => after == m,
    }
}

/// What `/monitor` says.
pub open spec fn command_said(
    before: AppState,
    after: AppState,
    id: Seq<char>,
    m: MonitorState,
    r: MonitorRequest,
    error: Seq<char>,
    supported: bool,
    now: Clock,
) -> bool {
    match r {
        MonitorRequest::Usage => event_shown(
            before,
            after,
            "Usage: /monitor [add NICKS|remove NICKS|clear|list|status|show]"@,
            now.utc_ms,
        ),
        MonitorRequest::BadTargets | MonitorRequest::Rejected => event_shown(
            before,
            after,
            error,
            now.utc_ms,
        ),
        MonitorRequest::Show => rows_reported(before, after, id, m.lines(), now.utc_ms),
        MonitorRequest::Changed => exists|middle: AppState|
            #[trigger] event_shown(
                before,
                middle,
                "MONITOR targets queued for synchronization"@,
                now.utc_ms,
            ) && support_noted(middle, after, supported, now),
        _ => support_noted(before, after, supported, now),
    }
}

/// What `/monitor` does before the round that follows it.
pub open spec fn commanded(
    before: App,
    after: App,
    m0: Map<Seq<char>, MonitorState>,
    m1: Map<Seq<char>, MonitorState>,
    args: Seq<Seq<char>>,
    targets: Result<Vec<String>, String>,
    rejected: Option<String>,
    now: Clock,
    r: MonitorRequest,
) -> bool {
    &&& after == (App { state: after.state, ..before })
    &&& match before.state.active() {
        None => r is Refused && m1 == m0 && event_shown(
            before.state,
            after.state,
            "No active connection"@,
            now.utc_ms,
        ),
        Some(b) => {
            let id = b.connection_id@;
            if !before.state.connections@.contains_key(id) {
                r is Refused && m1 == m0 && after == before
            } else if before.state.connections@[id].control() {
                r is Refused && m1 == m0 && event_shown(
                    before.state,
                    after.state,
                    "Use /monitor on a network connection, not the bouncer control connection"@,
                    now.utc_ms,
                )
            } else {
                let c = before.state.connections@[id];
                &&& r == answered(requested(args, targets is Ok), rejected is Some)
                &&& exists|mm: Map<Seq<char>, MonitorState>|
                    {
                        &&& #[trigger] ensured(m0, mm, id, c, before.config.username@)
                        &&& m1 == mm.insert(id, m1[id])
                        &&& list_commanded(mm[id], m1[id], r, requested_change(args, targets))
                        &&& command_said(
                            before.state,
                            after.state,
                            id,
                            mm[id],
                            r,
                            complaint(r, targets, rejected),
                            c.monitor_supported,
                            now,
                        )
                    }
            }
        },
    }
}

/// It is noted where the server does not watch nicks at the moment.
pub open spec fn support_noted(before: AppState, after: AppState, supported: bool, now: Clock) -> bool {
    if supported {
        after == before
    } else {
        event_shown(
            before,
            after,
            "MONITOR is not currently advertised; queued targets will wait for support"@,
            now.utc_ms,
        )
    }
}

/// `/monitor`: changes the watch list of the active connection, shows it, or asks the server for it.
/// `targets` are the nicks that the arguments behind the first name, or what is wrong with them;
/// `rejected` is why the watch list cannot take the change that they ask for. A round follows where
/// something is to be sent.
pub fn command(
    app: &mut App,
    monitors: &mut StrMap<MonitorState>,
    args: &Vec<String>,
    targets: Result<Vec<String>, String>,
    rejected: Option<String>,
    now: Clock,
) -> (r: MonitorRequest)
    ensures
        commanded(
            *old(app),
            *final(app),
            old(monitors)@,
            final(monitors)@,
            texts(args@),
            targets,
            rejected,
            now,
            r,
        ),
{
    let ghost before = *app;
    let ghost m0 = monitors@;
    let ghost ps = texts(args@);
    let id = match app.state.active_buffer() {
        None => {
            app.state.add_local_event("No active connection".to_string(), now.utc_ms);
            return MonitorRequest::Refused;
        },
        Some(b) => b.connection_id.clone(),
    };
    let (control, supported) = match app.state.connections.get(id.as_str()) {
        None => {
            return MonitorRequest::Refused;
        },
        Some(c) => (c.bouncer_control(), c.monitor_supported),
    };
    if control {
        app.state.add_local_event(
            "Use /monitor on a network connection, not the bouncer control connection".to_string(),
            now.utc_ms,
        );
        return MonitorRequest::Refused;
    }
    let _there = ensure_monitor(monitors, &app.state, app.config.username.as_str(), id.as_str());
    let ghost mm = monitors@;
    let ghost c = before.state.connections@[id@];
    proof {
        assert(ensured(m0, mm, id@, c, before.config.username@));
        assert(mm =~= mm.insert(id@, mm[id@]));
        assert(args@.len() > 0 ==> ps[0] == args@[0]@);
    }
    let action = if args.len() > 0 {
        lower(args[0].as_str())
    } else {
        "list".to_string()
    };
    let request = read_request(action.as_str(), args.len(), targets.is_ok());
    assert(request == requested(ps, targets is Ok));
    let r = match request {
        MonitorRequest::Changed => if rejected.is_some() {
            MonitorRequest::Rejected
        } else {
            MonitorRequest::Changed
        },
        other => other,
    };
    match monitors.get_mut(id.as_str()) {
        None => {},
        Some(m) => command_list(
            m,
            &mut app.state,
            id.as_str(),
            action.as_str(),
            &r,
            targets,
            rejected,
            supported,
            now,
        ),
    }
    assert(monitors@ =~= mm.insert(id@, monitors@[id@]));
    r
}

/// What the arguments of `/monitor` ask for.
fn read_request(action: &str, count: usize, targets_ok: bool) -> (r: MonitorRequest)
    ensures
        r == requested_by(action@, count as nat, targets_ok),
{
    if same(action, "+") || same(action, "add") || same(action, "-") || same(action, "remove") {
        if targets_ok {
            MonitorRequest::Changed
        } else {
            MonitorRequest::BadTargets
        }
    } else if (same(action, "clear") || same(action, "c")) && count == 1 {
        MonitorRequest::Changed
    } else if (same(action, "list") || same(action, "l")) && count <= 1 {
        MonitorRequest::List
    } else if (same(action, "status") || same(action, "s")) && count == 1 {
        MonitorRequest::Status
    } else if same(action, "show") && count == 1 {
        MonitorRequest::Show
    } else {
        MonitorRequest::Usage
    }
}

/// Does to a watch list what `/monitor` asks for, and says so.
fn command_list(
    m: &mut MonitorState,
    state: &mut AppState,
    id: &str,
    action: &str,
    r: &MonitorRequest,
    targets: Result<Vec<String>, String>,
    rejected: Option<String>,
    supported: bool,
    now: Clock,
)
    requires
        *r is Rejected ==> rejected is Some,
        *r is Changed ==> targets is Ok || action@ == "clear"@ || action@ == "c"@,
        *r is BadTargets ==> targets is Err,
    ensures
        list_commanded(*old(m), *final(m), *r, change_by(action@, targets)),
        command_said(
            *old(state),
            *final(state),
            id@,
            *old(m),
            *r,
            complaint(*r, targets, rejected),
            supported,
            now,
        ),
{
    match r {
        MonitorRequest::Usage => {
            state.add_local_event(
                "Usage: /monitor [add NICKS|remove NICKS|clear|list|status|show]".to_string(),
                now.utc_ms,
            );
        },
        MonitorRequest::BadTargets => match targets {
            Ok(_) => {},
            Err(error) => state.add_local_event(error, now.utc_ms),
        },
        MonitorRequest::Rejected => match rejected {
            None => {},
            Some(error) => state.add_local_event(error, now.utc_ms),
        },
        MonitorRequest::Show => {
            let rows = m.rows();
            report_rows(state, id, &rows, now.utc_ms);
        },
        MonitorRequest::List => {
            m.show_list = true;
            note_support(state, supported, now);
        },
        MonitorRequest::Status => {
            m.request_status = true;
            note_support(state, supported, now);
        },
        MonitorRequest::Changed => {
            let ghost before = *state;
            let change = if same(action, "+") || same(action, "add") {
                match targets {
                    Ok(names) => Change::Add(names),
                    Err(_) => Change::Clear,
                }
            } else if same(action, "-") || same(action, "remove") {
                match targets {
                    Ok(names) => Change::Remove(names),
                    Err(_) => Change::Clear,
                }
            } else {
                Change::Clear
            };
            m.changes.push(change);
            state.add_local_event("MONITOR targets queued for synchronization".to_string(), now.utc_ms);
            assert(event_shown(
                before,
                *state,
                "MONITOR targets queued for synchronization"@,
                now.utc_ms,
            ));
            note_support(state, supported, now);
        },
        MonitorRequest::Refused => {
            note_support(state, supported, now);
        },
    }
}

/// Notes where the server does not watch nicks at the moment.
fn note_support(state: &mut AppState, supported: bool, now: Clock)
    ensures
        if supported {
            *final(state) == *old(state)
        } else {
            event_shown(
                *old(state),
                *final(state),
                "MONITOR is not currently advertised; queued targets will wait for support"@,
                now.utc_ms,
            )
        },
{
    if !supported {
        state.add_local_event(
            "MONITOR is not currently advertised; queued targets will wait for support".to_string(),
            now.utc_ms,
        );
    }
}

/// A watch list that belongs to another account or network is not carried over: nothing of it is
/// left to be sent.
pub proof fn other_account_starts_empty(
    before: Map<Seq<char>, MonitorState>,
    after: Map<Seq<char>, MonitorState>,
    id: Seq<char>,
    c: Connection,
    default_user: Seq<char>,
)
    requires
        ensured(before, after, id, c, default_user),
        before.contains_key(id),
        before[id].scope@ != monitor_scope(c, default_user),
    ensures
        after[id].rows@.len() == 0,
        after[id].changes@.len() == 0,
        after[id].outgoing@.len() == 0,
{
}

/// What is to be sent for a watch list goes out in order, once, and none of it is lost: what a round sent and
/// what still waits after it are together what waited before it. Where the server takes watch lists and the
/// connection takes commands, at least one goes out; where not, all of it waits on.
pub proof fn watch_list_commands_go_out_in_order(
    w0: MonitorWorld,
    w1: MonitorWorld,
    default_user: Seq<char>,
    id: Seq<char>,
    now_ms: i64,
)
    requires
        monitor_ticked(w0, w1, default_user, id, now_ms),
        w0.state.connections@.contains_key(id),
        w0.monitors.contains_key(id),
        w0.monitors[id].scope@ == monitor_scope(w0.state.connections@[id], default_user),
        w0.handles.contains_key(id),
    ensures
        ({
            let s0 = w0.handles[id].sender;
            let s1 = w1.handles[id].sender;
            let sent = s1.accepted().skip(s0.accepted().len() as int);
            let c = w0.state.connections@[id];
            let waited = command_views(w0.monitors[id].outgoing@);
            &&& sent + command_views(w1.monitors[id].outgoing@) == waited
            &&& c.status == ConnectionStatus::Connected && !c.control() && c.monitor_supported && waited.len() > 0
                && s0.room is None ==> sent.len() > 0
            &&& c.status != ConnectionStatus::Connected || !c.monitor_supported ==> sent.len() == 0
        }),
{
    let m = choose|m: Map<Seq<char>, MonitorState>|
        {
            let quiet = MonitorState { timed_out: false, ..m[id] };
            &&& #[trigger] ensured(w0.monitors, m, id, w0.state.connections@[id], default_user)
            &&& w1.monitors == m.insert(id, w1.monitors[id])
            &&& if may_send(w0.state, w0.handles, id) {
                &&& w1.handles[id] == (IrcHandle { sender: w1.handles[id].sender, ..w0.handles[id] })
                &&& quiet.round_sent(
                    w1.monitors[id],
                    w0.handles[id].sender,
                    w1.handles[id].sender,
                )
            } else {
                w1.monitors[id] == quiet && w1.handles == w0.handles
            }
        };
    let s0 = w0.handles[id].sender;
    let s1 = w1.handles[id].sender;
    let sent = s1.accepted().skip(s0.accepted().len() as int);
    let out = w0.monitors[id].outgoing@;
    let waited = command_views(out);
    assert(m[id].outgoing@ == out);
    if may_send(w0.state, w0.handles, id) {
        let quiet = MonitorState { timed_out: false, ..m[id] };
        let n = quiet.tries();
        let k = s0.passing(n);
        let commands = waited.take(n as int);
        assert(commands.len() == n);
        assert(sent =~= commands.take(k as int));
        assert(commands.take(k as int) =~= waited.take(k as int));
        assert(command_views(w1.monitors[id].outgoing@) =~= waited.skip(k as int));
        assert(sent + command_views(w1.monitors[id].outgoing@) =~= waited);
    } else {
        assert(sent.len() == 0);
        assert(sent + command_views(w1.monitors[id].outgoing@) =~= waited);
    }
}

/// Percent signs are doubled one by one, and all else stays as it is.
pub proof fn percent_signs_are_doubled(a: Seq<char>, b: Seq<char>, c: char)
    ensures
        doubled(a + b) == doubled(a) + doubled(b),
        doubled(seq![c]) == (if c == '%' {
            seq!['%', '%']
        } else {
            seq![c]
        }),
    decreases b.len(),
{
    let one = seq![c];
    assert(one.drop_last() =~= Seq::<char>::empty());
    assert(doubled(one.drop_last()) =~= Seq::<char>::empty());
    assert(doubled(one) =~= (if c == '%' {
        seq!['%', '%']
    } else {
        seq![c]
    }));
    if b.len() == 0 {
        assert(a + b =~= a);
        assert(doubled(a) + doubled(b) =~= doubled(a));
    } else {
        assert((a + b).drop_last() =~= a + b.drop_last());
        assert((a + b).last() == b.last());
        percent_signs_are_doubled(a, b.drop_last(), c);
        assert(doubled(a + b) =~= doubled(a) + doubled(b));
    }
}

} // verus!
