//! Connecting again, and what is sent right after a connection is up.
use vstd::prelude::*;

use crate::alias::{command_line, parse_command, ParsedCommand};
use crate::app::{App, Clock, Config, IrcHandle};
use crate::collections::StrMap;
use crate::irc::{add_event_to_buffer, connection_set_up, setup_connection_for_account};
use crate::irc_events::{counting, event_handled, EventStep, IrcEvent, Sessions};
use crate::state::{
    appended_at, buffer_id_seq, event_v, id_after, make_buffer_id, AppState, BufferType, Connection,
    ConnectionStatus, ServerConfig, DEFAULT_CONN_ID,
};
use crate::text::{
    chars_of, concat, concat3, decimal, decimal_seq, lower_seq, opt_text, pieces, same, split,
    starts_with, texts, trim, trim_seq, words_seq,
};

verus! {

broadcast use vstd::string::group_string_axioms;

/// Whether a connection is to be made again now.
pub open spec fn reconnect_due(
    state: AppState,
    handles: Map<Seq<char>, IrcHandle>,
    id: Seq<char>,
    now: u64,
) -> bool {
    let c = state.connections@[id];
    &&& c.status == ConnectionStatus::Disconnected || c.status == ConnectionStatus::Error
    &&& c.should_reconnect
    &&& c.next_reconnect matches Some(t) && t <= now
    &&& id != DEFAULT_CONN_ID@
    &&& !handles.contains_key(id)
}

/// The connections among `ids` that are to be made again now.
pub open spec fn due_ids(
    state: AppState,
    handles: Map<Seq<char>, IrcHandle>,
    ids: Seq<Seq<char>>,
    now: u64,
) -> Seq<Seq<char>>
    decreases ids.len(),
{
    if ids.len() == 0 {
        Seq::empty()
    } else {
        let init = due_ids(state, handles, ids.drop_last(), now);
        if reconnect_due(state, handles, ids.last(), now) {
            init.push(ids.last())
        } else {
            init
        }
    }
}

/// The connections that are to be made again now.
fn reconnects_due(state: &AppState, handles: &StrMap<IrcHandle>, now: u64) -> (r: Vec<String>)
    ensures
        texts(r@) == due_ids(*state, handles@, state.connections.keys(), now),
{
    let ghost keys = state.connections.keys();
    let mut r: Vec<String> = Vec::new();
    let n: usize = state.connections.len();
    let mut i: usize = 0;
    assert(keys.take(0) =~= Seq::<Seq<char>>::empty());
    assert(texts(r@) =~= Seq::<Seq<char>>::empty());
    while i < n
        invariant
            keys == state.connections.keys(),
            n == keys.len(),
            i <= n,
            texts(r@) == due_ids(*state, handles@, keys.take(i as int), now),
        decreases n - i,
    {
        let id = state.connections.key_at(i);
        let c = state.connections.value_at(i);
        assert(keys.take(i + 1).drop_last() =~= keys.take(i as int));
        assert(keys.take(i + 1).last() == id@);
        let late = match c.next_reconnect {
            Some(t) => t <= now,
            None => false,
        };
        let down = c.status == ConnectionStatus::Disconnected || c.status == ConnectionStatus::Error;
        if down && c.should_reconnect && late && !same(id.as_str(), DEFAULT_CONN_ID)
            && !handles.contains(id.as_str()) {
            let ghost was = texts(r@);
            let ghost k = id@;
            r.push(id.clone());
            assert(texts(r@) =~= was.push(k));
        }
        i = i + 1;
    }
    assert(keys.take(n as int) =~= keys);
    r
}

/// The number of an attempt, which stops at its largest value.
pub open spec fn next_attempt(n: u32) -> u32 {
    if n == u32::MAX {
        n
    } else {
        (n + 1) as u32
    }
}

/// What is said of an attempt to connect again.
pub open spec fn attempt_text(label: Seq<char>, attempt: u32) -> Seq<char> {
    "Reconnecting to "@ + label + " (attempt "@ + decimal_seq(attempt as nat) + ")..."@
}

/// A connection is being made again.
pub open spec fn reconnecting(before: AppState, after: AppState, id: Seq<char>, now_ms: i64) -> bool {
    if !before.connections@.contains_key(id) {
        after == before
    } else {
        let c = before.connections@[id];
        &&& after == (AppState {
            buffers: after.buffers,
            connections: after.connections,
            message_counter: id_after(before.message_counter),
            ..before
        })
        &&& after.connections.keys() == before.connections.keys()
        &&& after.connections@ == before.connections@.insert(
            id,
            Connection {
                reconnect_attempts: next_attempt(c.reconnect_attempts),
                next_reconnect: None,
                status: ConnectionStatus::Connecting,
                ..c
            },
        )
        &&& appended_at(
            before.buffers,
            after.buffers,
            buffer_id_seq(id, c.label@),
            seq![
                event_v(
                    id_after(before.message_counter),
                    now_ms,
                    attempt_text(c.label@, next_attempt(c.reconnect_attempts)),
                    None,
                ),
            ],
        )
    }
}

/// Connections are being made again, one after the other.
pub open spec fn all_reconnecting(
    before: AppState,
    after: AppState,
    ids: Seq<Seq<char>>,
    now_ms: i64,
) -> bool
    decreases ids.len(),
{
    if ids.len() == 0 {
        after == before
    } else {
        exists|middle: AppState|
            all_reconnecting(before, middle, ids.drop_last(), now_ms) && #[trigger] reconnecting(
                middle,
                after,
                ids.last(),
                now_ms,
            )
    }
}

/// Begins to make a connection again.
fn begin_reconnect(state: &mut AppState, id: &str, now_ms: i64)
    ensures
        reconnecting(*old(state), *final(state), id@, now_ms),
{
    let ghost before = *state;
    if !state.connections.contains(id) {
        return;
    }
    let mut label = String::new();
    let mut attempts: u32 = 0;
    match state.connections.get_mut(id) {
        None => {},
        Some(c) => {
            if c.reconnect_attempts < u32::MAX {
                c.reconnect_attempts = c.reconnect_attempts + 1;
            }
            c.next_reconnect = None;
            c.status = ConnectionStatus::Connecting;
            attempts = c.reconnect_attempts;
            label = c.label.clone();
        },
    }
    let buffer = make_buffer_id(id, label.as_str());
    let start = concat3("Reconnecting to ", label.as_str(), " (attempt ");
    let text = concat3(start.as_str(), decimal(attempts as u64).as_str(), ")...");
    assert(text@ =~= attempt_text(label@, attempts));
    add_event_to_buffer(state, buffer.as_str(), text, now_ms);
}

/// Every connection whose time has come is being made again; `ids` names them.
pub open spec fn reconnects_checked(before: App, after: App, now: Clock, ids: Seq<Seq<char>>) -> bool {
    &&& after == (App { state: after.state, ..before })
    &&& ids == due_ids(before.state, before.irc_handles@, before.state.connections.keys(), now.mono_ms)
    &&& all_reconnecting(before.state, after.state, ids, now.utc_ms)
}

impl App {
    /// Begins to make every connection again whose time has come; returns their ids, for which an
    /// attempt is to be started.
    pub fn check_reconnects(&mut self, now: Clock) -> (r: Vec<String>)
        ensures
            reconnects_checked(*old(self), *final(self), now, texts(r@)),
            final(self).state.connections.ordered(),
    {
        let ids = reconnects_due(&self.state, &self.irc_handles, now.mono_ms);
        begin_reconnects(&mut self.state, &ids, now.utc_ms);
        let _ = self.state.connections.len();
        ids
    }
}

/// Begins to make connections again.
fn begin_reconnects(state: &mut AppState, ids: &Vec<String>, now_ms: i64)
    ensures
        all_reconnecting(*old(state), *final(state), texts(ids@), now_ms),
{
    let ghost before = *state;
    let ghost all = texts(ids@);
    let mut i: usize = 0;
    assert(all.take(0) =~= Seq::<Seq<char>>::empty());
    while i < ids.len()
        invariant
            i <= ids@.len(),
            all == texts(ids@),
            all_reconnecting(before, *state, all.take(i as int), now_ms),
        decreases ids@.len() - i,
    {
        let ghost middle = *state;
        begin_reconnect(state, ids[i].as_str(), now_ms);
        proof {
            assert(all.take(i + 1).drop_last() =~= all.take(i as int));
            assert(all.take(i + 1).last() == ids@[i as int]@);
            assert(reconnecting(middle, *state, all.take(i + 1).last(), now_ms));
        }
        i = i + 1;
    }
    assert(all.take(all.len() as int) =~= all);
}

/// What is left of a connection whose configuration is gone.
pub open spec fn gave_up(
    before: AppState,
    after: AppState,
    id: Seq<char>,
    buffer: Seq<char>,
    label: Seq<char>,
    now_ms: i64,
) -> bool {
    &&& after == (AppState {
        buffers: after.buffers,
        connections: after.connections,
        message_counter: id_after(before.message_counter),
        ..before
    })
    &&& if before.connections@.contains_key(id) {
        after.connections@ == before.connections@.insert(
            id,
            Connection {
                should_reconnect: false,
                status: ConnectionStatus::Disconnected,
                ..before.connections@[id]
            },
        )
    } else {
        after.connections@ == before.connections@
    }
    &&& appended_at(
        before.buffers,
        after.buffers,
        buffer,
        seq![
            event_v(
                id_after(before.message_counter),
                now_ms,
                "Cannot reconnect to "@ + label + ": server config not found"@,
                None,
            ),
        ],
    )
}

/// Whether an attempt to connect is to be started: without a configuration the connection is given up.
pub fn spawn_reconnect(
    state: &mut AppState,
    id: &str,
    configured: bool,
    buffer: &str,
    label: &str,
    now_ms: i64,
) -> (r: bool)
    ensures
        r == configured,
        if configured {
            *final(state) == *old(state)
        } else {
            gave_up(*old(state), *final(state), id@, buffer@, label@, now_ms)
        },
{
    if configured {
        return true;
    }
    match state.connections.get_mut(id) {
        None => {},
        Some(c) => {
            c.should_reconnect = false;
            c.status = ConnectionStatus::Disconnected;
        },
    }
    let text = concat3("Cannot reconnect to ", label, ": server config not found");
    add_event_to_buffer(state, buffer, text, now_ms);
    false
}

/// Connections that start on their own were set up, one after the other.
pub open spec fn autoconnected(
    config: Config,
    before: AppState,
    after: AppState,
    ids: Seq<Seq<char>>,
    now_ms: i64,
) -> bool
    decreases ids.len(),
{
    if ids.len() == 0 {
        after == before
    } else {
        exists|middle: AppState|
            autoconnected(config, before, middle, ids.drop_last(), now_ms) && #[trigger] autostarted(
                config,
                middle,
                after,
                ids.last(),
                now_ms,
            )
    }
}

/// A configured connection was set up.
pub open spec fn autostarted(
    config: Config,
    before: AppState,
    after: AppState,
    id: Seq<char>,
    now_ms: i64,
) -> bool {
    if config.servers@.contains_key(id) {
        connection_set_up(config, before, after, id, config.servers@[id], id, true, now_ms)
    } else {
        after == before
    }
}

/// The servers among `ids` that are configured.
pub open spec fn configured_of(config: Config, ids: Seq<Seq<char>>) -> Seq<Seq<char>> {
    ids.filter(|id: Seq<char>| config.servers@.contains_key(id))
}

/// Sets up the connections that start on their own; returns those for which an attempt is to be
/// started.
pub fn start_autoconnects(config: &Config, state: &mut AppState, ids: &Vec<String>, now_ms: i64) -> (r:
    Vec<String>)
    ensures
        texts(r@) == configured_of(*config, texts(ids@)),
        autoconnected(*config, *old(state), *final(state), texts(ids@), now_ms),
{
    let ghost before = *state;
    let ghost all = texts(ids@);
    let ghost has = |id: Seq<char>| config.servers@.contains_key(id);
    let mut r: Vec<String> = Vec::new();
    let mut i: usize = 0;
    proof {
        assert(all.take(0) =~= Seq::<Seq<char>>::empty());
        reveal(Seq::filter);
        assert(texts(r@) =~= all.take(0).filter(has));
    }
    while i < ids.len()
        invariant
            i <= ids@.len(),
            all == texts(ids@),
            has == (|id: Seq<char>| config.servers@.contains_key(id)),
            texts(r@) == all.take(i as int).filter(has),
            autoconnected(*config, before, *state, all.take(i as int), now_ms),
        decreases ids@.len() - i,
    {
        let ghost middle = *state;
        let ghost was = texts(r@);
        let id = &ids[i];
        match config.servers.get(id.as_str()) {
            None => {},
            Some(server) => {
                let _buffer = setup_connection_for_account(
                    config,
                    state,
                    id.as_str(),
                    server,
                    id.as_str(),
                    true,
                    now_ms,
                );
                r.push(id.clone());
                assert(texts(r@) =~= was.push(id@));
            },
        }
        proof {
            reveal(Seq::filter);
            assert(all.take(i + 1).drop_last() =~= all.take(i as int));
            assert(all.take(i + 1).last() == id@);
            assert(has(id@) == config.servers@.contains_key(id@));
            assert(autostarted(*config, middle, *state, all.take(i + 1).last(), now_ms));
        }
        i = i + 1;
    }
    assert(all.take(all.len() as int) =~= all);
    r
}

/// A text in upper case by the rules of Unicode.
pub uninterp spec fn unicode_upper(s: Seq<char>) -> Seq<char>;

/// `str::to_uppercase`: the text in upper case by the rules of Unicode, independent of any locale.
#[verifier::external_body]
fn to_uppercase(s: &str) -> (r: String)
    ensures
        r@ == unicode_upper(s@),
{
    s.to_uppercase()
}

/// `s` from `from` on, with the text `with` for every `mark`, taken from the left.
pub open spec fn replaced_from(s: Seq<char>, mark: Seq<char>, with: Seq<char>, from: int) -> Seq<char>
    decreases s.len() - from,
{
    if from >= s.len() || from < 0 {
        Seq::empty()
    } else if mark.len() > 0 && from + mark.len() <= s.len() && s.subrange(from, from + mark.len())
        == mark {
        with + replaced_from(s, mark, with, from + mark.len())
    } else {
        seq![s[from]] + replaced_from(s, mark, with, from + 1)
    }
}

/// `s` with the text `with` for every `mark`, taken from the left.
pub open spec fn replaced(s: Seq<char>, mark: Seq<char>, with: Seq<char>) -> Seq<char> {
    replaced_from(s, mark, with, 0)
}

/// `str::replace`, for a mark that is not empty.
pub fn replace(s: &str, mark: &str, with: &str) -> (r: String)
    requires
        mark@.len() > 0,
    ensures
        r@ == replaced(s@, mark@, with@),
{
    let v = chars_of(s);
    let m = chars_of(mark);
    let mut r = String::new();
    let mut i: usize = 0;
    while i < v.len()
        invariant
            v@ == s@,
            m@ == mark@,
            m@.len() > 0,
            i <= v@.len(),
            r@ + replaced_from(s@, mark@, with@, i as int) == replaced(s@, mark@, with@),
        decreases v@.len() - i,
    {
        let ghost was = r@;
        let mut k: usize = 0;
        while k < m.len() && k < v.len() - i && v[i + k] == m[k]
            invariant
                i <= v@.len(),
                k <= m@.len(),
                i + k <= v@.len(),
                forall|j: int| 0 <= j < k ==> v@[i + j] == m@[j],
            decreases m@.len() - k,
        {
            k = k + 1;
        }
        if k == m.len() {
            assert(s@.subrange(i as int, i + m@.len()) =~= mark@);
            r.append(with);
            assert(was + (with@ + replaced_from(s@, mark@, with@, i + m@.len())) =~= r@
                + replaced_from(s@, mark@, with@, i + m@.len()));
            i = i + k;
        } else {
            proof {
                if i + m@.len() <= s@.len() {
                    let part = s@.subrange(i as int, i + m@.len());
                    assert(part[k as int] == v@[i + k]);
                    assert(part[k as int] != mark@[k as int]);
                }
            }
            r.push(v[i]);
            assert(was + (seq![s@[i as int]] + replaced_from(s@, mark@, with@, i + 1)) =~= r@
                + replaced_from(s@, mark@, with@, i + 1));
            i = i + 1;
        }
    }
    assert(r@ + Seq::<char>::empty() =~= r@);
    r
}

/// The line that one part of the commands to send on connecting stands for: nothing for an empty part
/// and for a wait.
pub open spec fn autosend_line(part: Seq<char>, nick: Seq<char>) -> Option<Seq<char>> {
    let cmd = trim_seq(part);
    if cmd.len() == 0 || "WAIT"@.is_prefix_of(unicode_upper(cmd)) {
        None
    } else {
        let line = replaced(replaced(cmd, "$N"@, nick), "${N}"@, nick);
        if line.len() > 0 && line[0] == '/' {
            Some(line)
        } else {
            Some(seq!['/'] + line)
        }
    }
}

/// The lines that commands to send on connecting stand for and that are commands.
pub open spec fn autosend_lines(parts: Seq<Seq<char>>, nick: Seq<char>) -> Seq<Seq<char>>
    decreases parts.len(),
{
    if parts.len() == 0 {
        Seq::empty()
    } else {
        let init = autosend_lines(parts.drop_last(), nick);
        match autosend_line(parts.last(), nick) {
            Some(line) if command_line(line) => init.push(line),
            _ => init,
        }
    }
}

/// A command as it stands in a line.
pub open spec fn parsed_from(p: ParsedCommand, line: Seq<char>) -> bool {
    &&& p.name@ == lower_seq(words_seq(line.skip(1))[0])
    &&& texts(p.args@) == words_seq(line.skip(1)).skip(1)
}

/// The commands to run on connecting, for the current nick.
pub fn autosend_commands(cmds: &str, nick: &str) -> (r: Vec<ParsedCommand>)
    ensures
        ({
            let lines = autosend_lines(pieces(cmds@, ';'), nick@);
            &&& r@.len() == lines.len()
            &&& forall|i: int| 0 <= i < lines.len() ==> parsed_from(#[trigger] r@[i], lines[i])
        }),
{
    let parts = split(cmds, ';');
    let ghost all = texts(parts@);
    let mut r: Vec<ParsedCommand> = Vec::new();
    let mut i: usize = 0;
    assert(all.take(0) =~= Seq::<Seq<char>>::empty());
    while i < parts.len()
        invariant
            i <= parts@.len(),
            all == texts(parts@),
            r@.len() == autosend_lines(all.take(i as int), nick@).len(),
            forall|j: int|
                0 <= j < r@.len() ==> parsed_from(
                    #[trigger] r@[j],
                    autosend_lines(all.take(i as int), nick@)[j],
                ),
        decreases parts@.len() - i,
    {
        assert(all.take(i + 1).drop_last() =~= all.take(i as int));
        assert(all.take(i + 1).last() == parts@[i as int]@);
        let line = autosend_one(parts[i].as_str(), nick);
        match line {
            None => {},
            Some(line) => match parse_command(line.as_str()) {
                None => {},
                Some(parsed) => {
                    r.push(parsed);
                },
            },
        }
        i = i + 1;
    }
    assert(all.take(all.len() as int) =~= all);
    r
}

/// The line that one part of the commands to send on connecting stands for.
fn autosend_one(part: &str, nick: &str) -> (r: Option<String>)
    ensures
        match r {
            Some(line) => autosend_line(part@, nick@) == Some(line@),
            None => autosend_line(part@, nick@) is None,
        },
{
    let cmd = trim(part);
    if cmd.as_str().is_empty() {
        return None;
    }
    if starts_with(to_uppercase(cmd.as_str()).as_str(), "WAIT") {
        return None;
    }
    proof {
        reveal_strlit("$N");
        reveal_strlit("${N}");
        reveal_strlit("/");
    }
    let once = replace(cmd.as_str(), "$N", nick);
    let line = replace(once.as_str(), "${N}", nick);
    if starts_with(line.as_str(), "/") {
        assert("/"@ =~= seq!['/']);
        assert(line@[0] == "/"@[0]);
        Some(line)
    } else {
        let r = concat("/", line.as_str());
        assert(r@ =~= seq!['/'] + line@);
        proof {
            if line@.len() > 0 && line@[0] == '/' {
                assert("/"@ =~= line@.take(1));
                assert("/"@.is_prefix_of(line@));
            }
        }
        Some(r)
    }
}

/// The commands to run on connecting, with the nick that the connection has.
pub fn execute_autosendcmd(state: &AppState, conn_id: &str, cmds: &str) -> (r: Vec<ParsedCommand>)
    ensures
        ({
            let nick = if state.connections@.contains_key(conn_id@) {
                state.connections@[conn_id@].nick@
            } else {
                Seq::empty()
            };
            let lines = autosend_lines(pieces(cmds@, ';'), nick);
            &&& r@.len() == lines.len()
            &&& forall|i: int| 0 <= i < lines.len() ==> parsed_from(#[trigger] r@[i], lines[i])
        }),
{
    proof {
        reveal_strlit("");
        assert(""@ =~= Seq::<char>::empty());
    }
    match state.connections.get(conn_id) {
        Some(c) => autosend_commands(cmds, c.nick.as_str()),
        None => autosend_commands(cmds, ""),
    }
}

/// What stands among the due connections.
proof fn lemma_due(
    state: AppState,
    handles: Map<Seq<char>, IrcHandle>,
    ids: Seq<Seq<char>>,
    now: u64,
)
    requires
        ids.no_duplicates(),
    ensures
        due_ids(state, handles, ids, now).no_duplicates(),
        forall|id: Seq<char>| #[trigger]
            due_ids(state, handles, ids, now).contains(id) <==> ids.contains(id) && reconnect_due(
                state,
                handles,
                id,
                now,
            ),
    decreases ids.len(),
{
    let all = due_ids(state, handles, ids, now);
    if ids.len() > 0 {
        let rest = ids.drop_last();
        let init = due_ids(state, handles, rest, now);
        assert(rest.no_duplicates());
        lemma_due(state, handles, rest, now);
        assert forall|id: Seq<char>| #[trigger] all.contains(id) implies ids.contains(id) && reconnect_due(
            state,
            handles,
            id,
            now,
        ) by {
            let k = all.index_of(id);
            if k < init.len() {
                assert(init[k] == id);
                assert(init.contains(id));
                let j = rest.index_of(id);
                assert(ids[j] == id);
            } else {
                assert(ids[ids.len() - 1] == id);
            }
        }
        assert forall|id: Seq<char>| ids.contains(id) && reconnect_due(
            state,
            handles,
            id,
            now,
        ) implies #[trigger] all.contains(id) by {
            let j = ids.index_of(id);
            if j < rest.len() {
                assert(rest[j] == id);
                assert(init.contains(id));
                let k = init.index_of(id);
                assert(all[k] == id);
            } else {
                assert(all[all.len() - 1] == id);
            }
        }
        assert(all.no_duplicates()) by {
            if reconnect_due(state, handles, ids.last(), now) {
                if init.contains(ids.last()) {
                    let j = rest.index_of(ids.last());
                    assert(ids[j] == ids[ids.len() - 1]);
                }
                assert forall|a: int, b: int| 0 <= a < b < all.len() implies all[a] != all[b] by {
                    if b == all.len() - 1 && all[a] == all[b] {
                        assert(init[a] == ids.last());
                        assert(init.contains(ids.last()));
                    }
                }
            }
        }
    }
}

/// What happens to the connections that are being made again, and to the others.
proof fn lemma_reconnecting(before: AppState, after: AppState, ids: Seq<Seq<char>>, now_ms: i64)
    requires
        all_reconnecting(before, after, ids, now_ms),
        ids.no_duplicates(),
        forall|i: int| 0 <= i < ids.len() ==> before.connections@.contains_key(#[trigger] ids[i]),
    ensures
        after.connections.keys() == before.connections.keys(),
        after.connections@.dom() == before.connections@.dom(),
        forall|id: Seq<char>| #[trigger]
            after.connections@.contains_key(id) && !ids.contains(id) ==> after.connections@[id]
                == before.connections@[id],
        forall|id: Seq<char>| #[trigger]
            ids.contains(id) ==> after.connections@[id] == (Connection {
                reconnect_attempts: next_attempt(before.connections@[id].reconnect_attempts),
                next_reconnect: None,
                status: ConnectionStatus::Connecting,
                ..before.connections@[id]
            }),
    decreases ids.len(),
{
    if ids.len() > 0 {
        let rest = ids.drop_last();
        let last = ids.last();
        let middle = choose|middle: AppState|
            all_reconnecting(before, middle, rest, now_ms) && #[trigger] reconnecting(
                middle,
                after,
                last,
                now_ms,
            );
        lemma_reconnecting(before, middle, rest, now_ms);
        assert(before.connections@.contains_key(ids[ids.len() - 1]));
        assert(middle.connections@.contains_key(last));
        assert(!rest.contains(last)) by {
            if rest.contains(last) {
                let j = rest.index_of(last);
                assert(ids[j] == ids[ids.len() - 1]);
            }
        }
        assert(after.connections@.dom() =~= before.connections@.dom());
        assert forall|id: Seq<char>| #[trigger] ids.contains(id) implies id == last || rest.contains(id) by {
            let j = ids.index_of(id);
            if j < rest.len() {
                assert(rest[j] == id);
            }
        }
        assert forall|id: Seq<char>| #[trigger] rest.contains(id) implies ids.contains(id) by {
            assert(ids[rest.index_of(id)] == id);
        }
        assert(ids.contains(last)) by {
            assert(ids[ids.len() - 1] == last);
        }
    }
}

/// A lost connection is tried again. Whether it ended with an error or without one, where it is to be made
/// again at a given time, the first look at the connections from that time on names it.
pub proof fn lost_connections_are_tried_again(
    before: App,
    lost: App,
    after: App,
    s0: Sessions,
    s1: Sessions,
    event: IrcEvent,
    conn: String,
    error: Option<String>,
    account: Seq<char>,
    retry: Option<u64>,
    channel_types: Seq<char>,
    then: Clock,
    step: EventStep,
    now: Clock,
    tried: Seq<Seq<char>>,
)
    requires
        event_handled(before, lost, s0, s1, event, account, retry, channel_types, then, step),
        counting(s0.attempts@, event) == Some(IrcEvent::Disconnected(conn, error)),
        before.state.connections@.contains_key(conn@),
        before.state.connections@[conn@].should_reconnect,
        retry matches Some(t) && t <= now.mono_ms,
        conn@ != DEFAULT_CONN_ID@,
        lost.state.connections.ordered(),
        reconnects_checked(lost, after, now, tried),
    ensures
        tried.contains(conn@),
        after.state.connections@[conn@].status == ConnectionStatus::Connecting,
        after.state.connections@[conn@].should_reconnect,
{
    let keys = lost.state.connections.keys();
    lemma_due(lost.state, lost.irc_handles@, keys, now.mono_ms);
    assert(lost.state.connections@.contains_key(conn@));
    assert(keys.contains(conn@));
    assert(reconnect_due(lost.state, lost.irc_handles@, conn@, now.mono_ms));
    lemma_tried_are_known(lost.state, lost.irc_handles@, now.mono_ms);
    lemma_reconnecting(lost.state, after.state, tried, now.utc_ms);
}

/// Due connections are connections.
proof fn lemma_tried_are_known(state: AppState, handles: Map<Seq<char>, IrcHandle>, now: u64)
    requires
        state.connections.ordered(),
    ensures
        forall|i: int|
            0 <= i < due_ids(state, handles, state.connections.keys(), now).len()
                ==> state.connections@.contains_key(
                #[trigger] due_ids(state, handles, state.connections.keys(), now)[i],
            ),
{
    let keys = state.connections.keys();
    let due = due_ids(state, handles, keys, now);
    lemma_due(state, handles, keys, now);
    assert forall|i: int| 0 <= i < due.len() implies state.connections@.contains_key(#[trigger] due[i]) by {
        assert(due.contains(due[i]));
    }
}

/// A connection is tried where it was lost and is to come back, where its time has come and where none is
/// up; and only there. The one that stands for the program itself is never tried.
pub proof fn only_lost_connections_are_tried(
    before: App,
    after: App,
    now: Clock,
    tried: Seq<Seq<char>>,
    id: Seq<char>,
)
    requires
        before.state.connections.ordered(),
        before.state.connections@.contains_key(id),
        reconnects_checked(before, after, now, tried),
    ensures
        tried.contains(id) <==> ({
            let c = before.state.connections@[id];
            &&& c.status != ConnectionStatus::Connected
            &&& c.status != ConnectionStatus::Connecting
            &&& c.should_reconnect
            &&& c.next_reconnect is Some
            &&& c.next_reconnect->0 <= now.mono_ms
            &&& !before.irc_handles@.contains_key(id)
            &&& id != DEFAULT_CONN_ID@
        }),
{
    lemma_due(before.state, before.irc_handles@, before.state.connections.keys(), now.mono_ms);
    assert(before.state.connections.keys().contains(id));
}

/// One look at the connections begins one attempt for each that it names, counts it and leaves the other
/// connections alone; another look before the attempt ends names none of them again.
pub proof fn an_attempt_is_begun_once(
    before: App,
    middle: App,
    after: App,
    now: Clock,
    later: Clock,
    tried: Seq<Seq<char>>,
    again: Seq<Seq<char>>,
    id: Seq<char>,
)
    requires
        before.state.connections.ordered(),
        middle.state.connections.ordered(),
        before.state.connections@.contains_key(id),
        reconnects_checked(before, middle, now, tried),
        reconnects_checked(middle, after, later, again),
    ensures
        tried.no_duplicates(),
        tried.contains(id) ==> {
            &&& !again.contains(id)
            &&& middle.state.connections@[id].status == ConnectionStatus::Connecting
            &&& middle.state.connections@[id].reconnect_attempts > before.state.connections@[id].reconnect_attempts
                || before.state.connections@[id].reconnect_attempts == u32::MAX
            &&& middle.state.connections@[id].reconnect_attempts <= before.state.connections@[id].reconnect_attempts + 1
        },
        !tried.contains(id) ==> middle.state.connections@[id] == before.state.connections@[id],
{
    lemma_due(before.state, before.irc_handles@, before.state.connections.keys(), now.mono_ms);
    lemma_due(middle.state, middle.irc_handles@, middle.state.connections.keys(), later.mono_ms);
    lemma_tried_are_known(before.state, before.irc_handles@, now.mono_ms);
    lemma_reconnecting(before.state, middle.state, tried, now.utc_ms);
    assert(middle.state.connections@.contains_key(id));
}

/// The commands of an autosend line are taken one by one and in their order: what a longer list sends is what
/// its parts send, one behind the other.
pub proof fn autosend_keeps_the_order(a: Seq<Seq<char>>, b: Seq<Seq<char>>, nick: Seq<char>)
    ensures
        autosend_lines(a + b, nick) == autosend_lines(a, nick) + autosend_lines(b, nick),
    decreases b.len(),
{
    if b.len() == 0 {
        assert(a + b =~= a);
        assert(autosend_lines(a, nick) + autosend_lines(b, nick) =~= autosend_lines(a, nick));
    } else {
        assert((a + b).drop_last() =~= a + b.drop_last());
        assert((a + b).last() == b.last());
        autosend_keeps_the_order(a, b.drop_last(), nick);
        assert(autosend_lines(a + b, nick) =~= autosend_lines(a, nick) + autosend_lines(b, nick));
    }
}

proof fn lemma_set_up(
    config: Config,
    before: AppState,
    after: AppState,
    id: Seq<char>,
    server: ServerConfig,
    activate: bool,
    now_ms: i64,
)
    requires
        connection_set_up(config, before, after, id, server, id, activate, now_ms),
    ensures
        after.connections@.contains_key(id),
        after.connections@[id].status == ConnectionStatus::Connecting,
        after.connections@[id].label@ == server.label@,
        !server.bound() ==> texts(after.connections@[id].joined_channels@) == texts(server.channels@),
        forall|k: Seq<char>| #[trigger]
            before.connections@.contains_key(k) && k != id && k != DEFAULT_CONN_ID@
                ==> after.connections@.contains_key(k) && after.connections@[k] == before.connections@[k],
        ({
            let buffer = buffer_id_seq(id, server.label@);
            &&& after.buffers@.contains_key(buffer)
            &&& after.buffers@[buffer].connection_id@ == id
            &&& after.buffers@[buffer].buffer_type == BufferType::Server
            &&& activate ==> opt_text(after.active_buffer_id) == Some(buffer)
        }),
{
}

/// The servers that are to be connected to at the start are connected to: each that is known has a connection
/// that is being made and that wants its channels, unless its id is that of the program itself; connections
/// that were there are not touched.
pub proof fn servers_are_connected_to(
    config: Config,
    before: AppState,
    after: AppState,
    ids: Seq<Seq<char>>,
    now_ms: i64,
    id: Seq<char>,
)
    requires
        autoconnected(config, before, after, ids, now_ms),
        id != DEFAULT_CONN_ID@,
    ensures
        ids.contains(id) && config.servers@.contains_key(id) ==> {
            &&& after.connections@.contains_key(id)
            &&& after.connections@[id].status == ConnectionStatus::Connecting
            &&& after.connections@[id].label@ == config.servers@[id].label@
            &&& !config.servers@[id].bound() ==> texts(after.connections@[id].joined_channels@) == texts(
                config.servers@[id].channels@,
            )
        },
        !ids.contains(id) && before.connections@.contains_key(id) ==> after.connections@.contains_key(id)
            && after.connections@[id] == before.connections@[id],
    decreases ids.len(),
{
    if ids.len() > 0 {
        let rest = ids.drop_last();
        let last = ids.last();
        let middle = choose|middle: AppState|
            autoconnected(config, before, middle, ids.drop_last(), now_ms) && #[trigger] autostarted(
                config,
                middle,
                after,
                ids.last(),
                now_ms,
            );
        servers_are_connected_to(config, before, middle, rest, now_ms, id);
        assert(ids[ids.len() - 1] == last);
        if rest.contains(id) {
            assert(ids[rest.index_of(id)] == id);
        }
        if ids.contains(id) && id != last {
            assert(rest[ids.index_of(id)] == id);
        }
        if config.servers@.contains_key(last) {
            lemma_set_up(config, middle, after, last, config.servers@[last], true, now_ms);
            assert(middle.connections@.contains_key(id) && id != last ==> after.connections@[id]
                == middle.connections@[id]);
        }
    }
}

/// Attempts end: after giving up, a connection is not tried again, and no other is touched.
pub proof fn given_up_is_not_tried_again(
    before: AppState,
    after: AppState,
    id: Seq<char>,
    buffer: Seq<char>,
    label: Seq<char>,
    now_ms: i64,
    other: Seq<char>,
)
    requires
        gave_up(before, after, id, buffer, label, now_ms),
        before.connections@.contains_key(id),
    ensures
        !after.connections@[id].should_reconnect,
        after.connections@[id].status == ConnectionStatus::Disconnected,
        other != id && before.connections@.contains_key(other) ==> after.connections@.contains_key(other)
            && after.connections@[other] == before.connections@[other],
{
}

} // verus!
