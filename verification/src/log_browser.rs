//! Reading the message log: a buffer for every conversation in it, filled page by page.
use vstd::prelude::*;

use crate::app::{fresh, App, Config};
use crate::chathistory::ChatHistory;
use crate::collections::{with_key, StrSet};
use crate::irc::{open_buffer, opened, LOG_CONN_PREFIX};
use crate::server_history::{slot, slot_of};
use crate::state::{
    activated, buffer_id_seq, make_buffer_id, AppState, Buffer, BufferType, Connection, ConnectionStatus,
    Message, MessageType, MessageV, ServerConfig,
};
use crate::text::{concat, opt_text, same, strip_prefix, texts};
use crate::times::{calendar_millis, millis_of_seconds};

verus! {

broadcast use vstd::string::group_string_axioms;

/// The most rows of a page.
pub const PAGE_ROWS: usize = 200;

/// How close to the top of what is loaded the view may come before more is loaded.
pub const PAGE_MARGIN: usize = 50;

/// What the log holds of one network.
#[derive(Debug)]
pub struct NetworkLog {
    pub name: String,
    pub buffers: Vec<String>,
}

/// What a network is called: the label of the configured server of that name, else its name.
pub open spec fn network_label(config: Config, network: Seq<char>) -> Seq<char> {
    if config.servers@.contains_key(network) {
        config.servers@[network].label@
    } else {
        network
    }
}

/// The connection that stands for a network of the log.
pub open spec fn log_connection(c: Connection, id: Seq<char>, label: Seq<char>) -> bool {
    &&& c.id@ == id
    &&& c.label@ == label
    &&& c.status == ConnectionStatus::Connected
    &&& c.nick@.len() == 0
    &&& !c.should_reconnect
    &&& c.reconnect_delay_secs == 0
    &&& c.joined_channels@.len() == 0
    &&& c.network_scope is None
    &&& c.bouncer_identity is None
    &&& c.enabled_caps@ == Set::<Seq<char>>::empty()
    &&& c.own_handle is None
    &&& c.user_modes@.len() == 0
    &&& c.error is None
    &&& c.lag_ms is None
    &&& !c.lag_pending
    &&& c.reconnect_attempts == 0
    &&& c.next_reconnect is None
    &&& c.multiline is None
    &&& c.batch_ref_counter == 0
    &&& c.casemapping@ == "rfc1459"@
    &&& !c.monitor_supported
    &&& c.chathistory_max is None
    &&& c.local_ip is None
    &&& c.chathistory.untouched()
    &&& log_server(c.origin_config)
}

/// The configuration of a network of the log: nothing to connect to.
pub open spec fn log_server(s: ServerConfig) -> bool {
    &&& s.label@.len() == 0
    &&& s.address@.len() == 0
    &&& s.port == 0
    &&& !s.tls
    &&& s.channels@.len() == 0
    &&& s.nick is None
    &&& s.username is None
    &&& s.password is None
    &&& s.sasl_user is None
    &&& s.sasl_pass is None
    &&& s.sasl_mechanism is None
    &&& s.client_cert_path is None
    &&& s.sasl_key_path is None
    &&& s.autosendcmd is None
    &&& s.auto_reconnect == Some(false)
    &&& s.reconnect_delay is None
    &&& s.reconnect_max_retries is None
    &&& s.bouncer_network_id is None
    &&& !s.bouncer_control
}

/// The connection that stands for a network of the log.
fn build_log_connection(id: &str, label: &str) -> (c: Connection)
    ensures
        log_connection(c, id@, label@),
{
    Connection {
        id: id.to_string(),
        label: label.to_string(),
        status: ConnectionStatus::Connected,
        nick: String::new(),
        own_handle: None,
        user_modes: String::new(),
        error: None,
        lag_ms: None,
        lag_pending: false,
        reconnect_attempts: 0,
        reconnect_delay_secs: 0,
        next_reconnect: None,
        should_reconnect: false,
        joined_channels: Vec::new(),
        origin_config: ServerConfig {
            label: String::new(),
            address: String::new(),
            port: 0,
            tls: false,
            channels: Vec::new(),
            nick: None,
            username: None,
            password: None,
            sasl_user: None,
            sasl_pass: None,
            sasl_mechanism: None,
            client_cert_path: None,
            sasl_key_path: None,
            autosendcmd: None,
            auto_reconnect: Some(false),
            reconnect_delay: None,
            reconnect_max_retries: None,
            bouncer_network_id: None,
            bouncer_control: false,
        },
        enabled_caps: StrSet::new(),
        multiline: None,
        batch_ref_counter: 0,
        network_scope: None,
        bouncer_identity: None,
        casemapping: "rfc1459".to_string(),
        monitor_supported: false,
        chathistory_max: None,
        local_ip: None,
        chathistory: ChatHistory::new(),
    }
}

/// Buffers of the log were opened, one after the other.
pub open spec fn log_buffers_opened(
    before: AppState,
    after: AppState,
    conn: Seq<char>,
    names: Seq<Seq<char>>,
) -> bool
    decreases names.len(),
{
    if names.len() == 0 {
        after == before
    } else {
        exists|middle: AppState|
            log_buffers_opened(before, middle, conn, names.drop_last()) && #[trigger] opened(
                middle,
                after,
                conn,
                BufferType::Log,
                names.last(),
            )
    }
}

/// Opens buffers of the log.
fn open_log_buffers(state: &mut AppState, conn: &str, names: &Vec<String>)
    ensures
        log_buffers_opened(*old(state), *final(state), conn@, texts(names@)),
        forall|k: Seq<char>| #[trigger]
            old(state).buffers@.contains_key(k) ==> final(state).buffers@.contains_key(k),
        names@.len() > 0 ==> final(state).buffers@.contains_key(
            buffer_id_seq(conn@, texts(names@)[0]),
        ),
{
    let ghost before = *state;
    let ghost all = texts(names@);
    let mut i: usize = 0;
    assert(all.take(0) =~= Seq::<Seq<char>>::empty());
    while i < names.len()
        invariant
            i <= names@.len(),
            all == texts(names@),
            log_buffers_opened(before, *state, conn@, all.take(i as int)),
            forall|k: Seq<char>| #[trigger]
                before.buffers@.contains_key(k) ==> state.buffers@.contains_key(k),
            i > 0 ==> state.buffers@.contains_key(buffer_id_seq(conn@, all[0])),
        decreases names@.len() - i,
    {
        let ghost middle = *state;
        open_buffer(state, conn, BufferType::Log, names[i].as_str());
        proof {
            assert(all.take(i + 1).drop_last() =~= all.take(i as int));
            assert(all.take(i + 1).last() == names@[i as int]@);
            assert(opened(middle, *state, conn@, BufferType::Log, all.take(i + 1).last()));
            if i == 0 {
                assert(all[0] == names@[0]@);
            }
        }
        i = i + 1;
    }
    assert(all.take(all.len() as int) =~= all);
}

/// A network of the log was added: its connection, and a buffer for every conversation.
pub open spec fn network_added(config: Config, before: AppState, after: AppState, network: NetworkLog) -> bool {
    let id = LOG_CONN_PREFIX@ + network.name@;
    exists|middle: AppState|
        {
            &&& middle == (AppState { connections: middle.connections, ..before })
            &&& middle.connections@ == before.connections@.insert(id, middle.connections@[id])
            &&& middle.connections.keys() == with_key(before.connections.keys(), id)
            &&& log_connection(middle.connections@[id], id, network_label(config, network.name@))
            &&& #[trigger] log_buffers_opened(middle, after, id, texts(network.buffers@))
        }
}

/// Networks of the log were added, one after the other.
pub open spec fn networks_added(
    config: Config,
    before: AppState,
    after: AppState,
    networks: Seq<NetworkLog>,
) -> bool
    decreases networks.len(),
{
    if networks.len() == 0 {
        after == before
    } else {
        exists|middle: AppState|
            networks_added(config, before, middle, networks.drop_last()) && #[trigger] network_added(
                config,
                middle,
                after,
                networks.last(),
            )
    }
}

/// The first conversation of the log, from the network `i` on.
pub open spec fn first_log_from(networks: Seq<NetworkLog>, i: int) -> Option<Seq<char>>
    decreases networks.len() - i,
{
    if i >= networks.len() || i < 0 {
        None
    } else if networks[i].buffers@.len() > 0 {
        Some(
            buffer_id_seq(
                LOG_CONN_PREFIX@ + networks[i].name@,
                texts(networks[i].buffers@)[0],
            ),
        )
    } else {
        first_log_from(networks, i + 1)
    }
}

/// Adds a network of the log.
fn add_network(config: &Config, state: &mut AppState, network: &NetworkLog)
    ensures
        network_added(*config, *old(state), *final(state), *network),
        forall|k: Seq<char>| #[trigger]
            old(state).buffers@.contains_key(k) ==> final(state).buffers@.contains_key(k),
        network.buffers@.len() > 0 ==> final(state).buffers@.contains_key(
            buffer_id_seq(LOG_CONN_PREFIX@ + network.name@, texts(network.buffers@)[0]),
        ),
{
    let ghost before = *state;
    let id = concat(LOG_CONN_PREFIX, network.name.as_str());
    let label = match config.servers.get(network.name.as_str()) {
        Some(server) => server.label.clone(),
        None => network.name.clone(),
    };
    state.add_connection(build_log_connection(id.as_str(), label.as_str()));
    let ghost middle = *state;
    open_log_buffers(state, id.as_str(), &network.buffers);
    proof {
        assert(log_buffers_opened(middle, *state, id@, texts(network.buffers@)));
        assert forall|k: Seq<char>| #[trigger] before.buffers@.contains_key(k) implies state.buffers@.contains_key(
            k,
        ) by {
            assert(middle.buffers@.contains_key(k));
        }
    }
}

impl App {
    /// The application as a browser of the log, which shows the conversations that were logged.
    pub fn new_log_browser(config: Config, networks: &Vec<NetworkLog>) -> (r: App)
        ensures
            exists|start: App, middle: AppState|
                {
                    &&& #[trigger] fresh(start, config)
                    &&& r == (App { state: r.state, log_browser_mode: true, ..start })
                    &&& #[trigger] networks_added(config, start.state, middle, networks@)
                    &&& match first_log_from(networks@, 0) {
                        Some(id) => activated(middle, r.state, id),
                        None => r.state == middle,
                    }
                },
    {
        let mut app = App::new(config);
        let ghost start = app;
        app.log_browser_mode = true;
        app.build_log_catalog(networks);
        assert(fresh(start, config));
        app
    }

    /// Fills the list of buffers from the log: a connection for every network, a buffer for every
    /// conversation, and the first of them is gone to.
    pub fn build_log_catalog(&mut self, networks: &Vec<NetworkLog>)
        ensures
            *final(self) == (App { state: final(self).state, ..*old(self) }),
            exists|middle: AppState|
                {
                    &&& #[trigger] networks_added(old(self).config, old(self).state, middle, networks@)
                    &&& match first_log_from(networks@, 0) {
                        Some(id) => activated(middle, final(self).state, id),
                        None => final(self).state == middle,
                    }
                },
    {
        add_catalog(&self.config, &mut self.state, networks);
        let ghost middle = self.state;
        match first_log(networks) {
            Some(id) => self.state.set_active_buffer(id.as_str()),
            None => {},
        }
        assert(networks_added(self.config, old(self).state, middle, networks@));
    }
}

/// Adds the networks of the log.
fn add_catalog(config: &Config, state: &mut AppState, networks: &Vec<NetworkLog>)
    ensures
        networks_added(*config, *old(state), *final(state), networks@),
        first_log_from(networks@, 0) matches Some(id) ==> final(state).buffers@.contains_key(id),
{
    let ghost before = *state;
    let mut i: usize = 0;
    assert(networks@.take(0) =~= Seq::<NetworkLog>::empty());
    while i < networks.len()
        invariant
            i <= networks@.len(),
            networks_added(*config, before, *state, networks@.take(i as int)),
            forall|j: int|
                0 <= j < i && (#[trigger] networks@[j]).buffers@.len() > 0 ==> state.buffers@.contains_key(
                    buffer_id_seq(LOG_CONN_PREFIX@ + networks@[j].name@, texts(networks@[j].buffers@)[0]),
                ),
        decreases networks@.len() - i,
    {
        let ghost middle = *state;
        add_network(config, state, &networks[i]);
        proof {
            assert(networks@.take(i + 1).drop_last() =~= networks@.take(i as int));
            assert(networks@.take(i + 1).last() == networks@[i as int]);
            assert(network_added(*config, middle, *state, networks@.take(i + 1).last()));
        }
        i = i + 1;
    }
    proof {
        assert(networks@.take(networks@.len() as int) =~= networks@);
        lemma_first_log(networks@, 0);
    }
}

/// The first conversation of the log is one of a network.
proof fn lemma_first_log(networks: Seq<NetworkLog>, i: int)
    requires
        0 <= i,
    ensures
        first_log_from(networks, i) matches Some(id) ==> exists|j: int|
            0 <= j < networks.len() && (#[trigger] networks[j]).buffers@.len() > 0 && id == buffer_id_seq(
                LOG_CONN_PREFIX@ + networks[j].name@,
                texts(networks[j].buffers@)[0],
            ),
    decreases networks.len() - i,
{
    if i < networks.len() {
        if networks[i].buffers@.len() == 0 {
            lemma_first_log(networks, i + 1);
        }
    }
}

/// The first conversation of the log.
fn first_log(networks: &Vec<NetworkLog>) -> (r: Option<String>)
    ensures
        opt_text(r) == first_log_from(networks@, 0),
{
    let mut i: usize = 0;
    while i < networks.len()
        invariant
            i <= networks@.len(),
            first_log_from(networks@, 0) == first_log_from(networks@, i as int),
        decreases networks@.len() - i,
    {
        let network = &networks[i];
        if network.buffers.len() > 0 {
            assert(texts(network.buffers@)[0] == network.buffers@[0]@);
            let conn = concat(LOG_CONN_PREFIX, network.name.as_str());
            return Some(make_buffer_id(conn.as_str(), network.buffers[0].as_str()));
        }
        i = i + 1;
    }
    None
}

/// The network and the conversation of a buffer of the log.
pub open spec fn log_place(state: AppState, buffer_id: Seq<char>) -> Option<(Seq<char>, Seq<char>)> {
    if state.buffers@.contains_key(buffer_id) && LOG_CONN_PREFIX@.is_prefix_of(
        state.buffers@[buffer_id].connection_id@,
    ) {
        Some(
            (
                state.buffers@[buffer_id].connection_id@.skip(LOG_CONN_PREFIX@.len() as int),
                state.buffers@[buffer_id].name@,
            ),
        )
    } else {
        None
    }
}

/// The network and the conversation of a buffer of the log; none for every other buffer.
pub fn split_log_buffer_id(state: &AppState, buffer_id: &str) -> (r: Option<(String, String)>)
    ensures
        match r {
            Some((network, name)) => log_place(*state, buffer_id@) == Some((network@, name@)),
            None => log_place(*state, buffer_id@) is None,
        },
{
    match state.buffers.get(buffer_id) {
        None => None,
        Some(b) => match strip_prefix(b.connection_id.as_str(), LOG_CONN_PREFIX) {
            None => None,
            Some(network) => Some((network, b.name.clone())),
        },
    }
}

/// A row of the log.
#[derive(Debug)]
pub struct StoredMessage {
    /// In seconds since the Unix epoch.
    pub timestamp: i64,
    pub msg_type: String,
    pub nick: Option<String>,
    pub text: String,
    pub highlight: bool,
    pub event_key: Option<String>,
}

/// The kind of a row.
pub open spec fn stored_kind(msg_type: Seq<char>) -> MessageType {
    if msg_type == "action"@ {
        MessageType::Action
    } else if msg_type == "notice"@ {
        MessageType::Notice
    } else if msg_type == "event"@ {
        MessageType::Event
    } else {
        MessageType::Message
    }
}

/// A row as a line of a buffer; a time that no calendar holds becomes the present.
pub open spec fn stored_v(s: StoredMessage, now_ms: i64) -> MessageV {
    MessageV {
        id: 0,
        at_ms: match calendar_millis(s.timestamp) {
            Some(ms) => ms,
            None => now_ms,
        },
        message_type: stored_kind(s.msg_type@),
        nick: opt_text(s.nick),
        nick_mode: None,
        text: s.text@,
        highlight: s.highlight,
        event_key: opt_text(s.event_key),
        event_params: Seq::empty(),
        msgid: None,
    }
}

/// A row as a line of a buffer.
fn stored_to_message(s: &StoredMessage, now_ms: i64) -> (r: Message)
    ensures
        r@ == stored_v(*s, now_ms),
{
    let kind = s.msg_type.as_str();
    let r = Message {
        id: 0,
        at_ms: match millis_of_seconds(s.timestamp) {
            Some(ms) => ms,
            None => now_ms,
        },
        message_type: if same(kind, "action") {
            MessageType::Action
        } else if same(kind, "notice") {
            MessageType::Notice
        } else if same(kind, "event") {
            MessageType::Event
        } else {
            MessageType::Message
        },
        nick: s.nick.clone(),
        nick_mode: None,
        text: s.text.clone(),
        highlight: s.highlight,
        event_key: s.event_key.clone(),
        event_params: Vec::new(),
        msgid: None,
    };
    assert(r@ =~= stored_v(*s, now_ms));
    r
}

/// The rows of a page as lines.
pub open spec fn stored_lines(rows: Seq<StoredMessage>, now_ms: i64) -> Seq<MessageV> {
    rows.map_values(|s: StoredMessage| stored_v(s, now_ms))
}

/// The models of lines.
pub open spec fn line_models(messages: Seq<Message>) -> Seq<MessageV> {
    messages.map_values(|m: Message| m@)
}

/// The rows of a page as lines.
fn lines_of(rows: &Vec<StoredMessage>, now_ms: i64) -> (r: Vec<Message>)
    ensures
        line_models(r@) == stored_lines(rows@, now_ms),
{
    let mut r: Vec<Message> = Vec::new();
    let mut i: usize = 0;
    while i < rows.len()
        invariant
            i <= rows@.len(),
            line_models(r@) =~= stored_lines(rows@, now_ms).take(i as int),
        decreases rows@.len() - i,
    {
        let ghost was = line_models(r@);
        let m = stored_to_message(&rows[i], now_ms);
        let ghost mv = m@;
        r.push(m);
        assert(line_models(r@) =~= was.push(mv));
        i = i + 1;
    }
    assert(line_models(r@) =~= stored_lines(rows@, now_ms));
    r
}

/// How much the log holds of a conversation.
#[derive(Clone, Copy, Debug, PartialEq, Eq, Structural)]
pub struct LogStats {
    pub lines: u64,
    pub oldest: i64,
    pub newest: i64,
}

/// A buffer with the first page of its conversation: what could not be read leaves it as it was.
pub open spec fn first_page(
    before: Buffer,
    after: Buffer,
    stats: Option<LogStats>,
    rows: Option<Seq<StoredMessage>>,
    now_ms: i64,
) -> bool {
    &&& after == (Buffer {
        messages: after.messages,
        history_exhausted: match rows {
            Some(rows) => rows.len() < PAGE_ROWS,
            None => before.history_exhausted,
        },
        log_total_lines: match stats {
            Some(s) => Some(s.lines),
            None => before.log_total_lines,
        },
        log_oldest_ts: match stats {
            Some(s) => Some(s.oldest),
            None => before.log_oldest_ts,
        },
        log_newest_ts: match stats {
            Some(s) => Some(s.newest),
            None => before.log_newest_ts,
        },
        ..before
    })
    &&& line_models(after.messages@) == (match rows {
        Some(rows) => stored_lines(rows, now_ms),
        None => Seq::empty(),
    })
}

/// The rows that could be read.
pub open spec fn read_rows(rows: Option<Vec<StoredMessage>>) -> Option<Seq<StoredMessage>> {
    match rows {
        Some(v) => Some(v@),
        None => None,
    }
}

/// The first page of a conversation was loaded.
pub open spec fn initial_loaded(
    before: AppState,
    after: AppState,
    id: Seq<char>,
    stats: Option<LogStats>,
    rows: Option<Seq<StoredMessage>>,
    now_ms: i64,
) -> bool {
    if log_place(before, id) is None || before.buffers@[id].messages@.len() > 0 {
        after == before
    } else {
        &&& after == (AppState { buffers: after.buffers, ..before })
        &&& after.buffers.keys() == before.buffers.keys()
        &&& after.buffers@ == before.buffers@.insert(id, after.buffers@[id])
        &&& first_page(before.buffers@[id], after.buffers@[id], stats, rows, now_ms)
    }
}

/// Loads the first page of a conversation into a buffer.
fn load_initial(
    state: &mut AppState,
    buffer_id: &str,
    stats: Option<LogStats>,
    rows: &Option<Vec<StoredMessage>>,
    now_ms: i64,
)
    ensures
        initial_loaded(*old(state), *final(state), buffer_id@, stats, read_rows(*rows), now_ms),
{
    if split_log_buffer_id(state, buffer_id).is_none() {
        return;
    }
    let loaded = match state.buffers.get(buffer_id) {
        None => true,
        Some(b) => b.messages.len() > 0,
    };
    if loaded {
        return;
    }
    match state.buffers.get_mut(buffer_id) {
        None => {},
        Some(b) => {
            match stats {
                Some(s) => {
                    b.log_total_lines = Some(s.lines);
                    b.log_oldest_ts = Some(s.oldest);
                    b.log_newest_ts = Some(s.newest);
                },
                None => {},
            }
            match rows {
                Some(rows) => {
                    b.messages = lines_of(rows, now_ms);
                    b.history_exhausted = rows.len() < PAGE_ROWS;
                },
                None => {
                    assert(line_models(b.messages@) =~= Seq::<MessageV>::empty());
                },
            }
        },
    }
}

/// What the log is asked for the older rows of a buffer.
#[derive(Debug)]
pub struct OlderRows {
    pub network: String,
    pub buffer: String,
    /// Rows before this time, in seconds since the Unix epoch.
    pub before: i64,
    pub limit: usize,
}

/// What the log is asked for the older rows of a buffer: those before its first line. Nothing is asked
/// of a buffer that is none of the log, holds nothing yet, or has all there is.
pub open spec fn older_than(state: AppState, id: Seq<char>) -> Option<(Seq<char>, Seq<char>, int)> {
    match log_place(state, id) {
        Some((network, name)) if !state.buffers@[id].history_exhausted
            && state.buffers@[id].messages@.len() > 0 => Some(
            (network, name, slot(state.buffers@[id].messages@[0].at_ms, 1000)),
        ),
        _ => None,
    }
}

/// What the log is asked for the older rows of a buffer.
pub fn older_rows_of(state: &AppState, buffer_id: &str) -> (r: Option<OlderRows>)
    ensures
        match r {
            Some(q) => older_than(*state, buffer_id@) == Some((q.network@, q.buffer@, q.before as int))
                && q.limit == PAGE_ROWS,
            None => older_than(*state, buffer_id@) is None,
        },
{
    let (network, buffer) = match split_log_buffer_id(state, buffer_id) {
        None => {
            return None;
        },
        Some(place) => place,
    };
    match state.buffers.get(buffer_id) {
        None => None,
        Some(b) => if b.history_exhausted || b.messages.len() == 0 {
            None
        } else {
            Some(
                OlderRows {
                    network,
                    buffer,
                    before: slot_of(b.messages[0].at_ms, 1000),
                    limit: PAGE_ROWS,
                },
            )
        },
    }
}

/// Older rows were put above what a buffer holds.
pub open spec fn older_loaded(
    before: AppState,
    after: AppState,
    id: Seq<char>,
    rows: Option<Seq<StoredMessage>>,
    now_ms: i64,
) -> bool {
    if log_place(before, id) is None || before.buffers@[id].history_exhausted {
        after == before
    } else {
        match rows {
            None => after == before,
            Some(rows) => {
                let b = before.buffers@[id];
                let c = after.buffers@[id];
                &&& after == (AppState { buffers: after.buffers, ..before })
                &&& after.buffers.keys() == before.buffers.keys()
                &&& after.buffers@ == before.buffers@.insert(id, c)
                &&& c == (Buffer {
                    messages: c.messages,
                    history_exhausted: rows.len() < PAGE_ROWS,
                    ..b
                })
                &&& line_models(c.messages@) == stored_lines(rows, now_ms) + line_models(b.messages@)
            },
        }
    }
}

impl App {
    /// Loads the latest rows of a conversation into its buffer, once. `stats` and `rows` are what the log
    /// said of it, where it could be read.
    pub fn load_initial_messages(
        &mut self,
        buffer_id: &str,
        stats: Option<LogStats>,
        rows: &Option<Vec<StoredMessage>>,
        now_ms: i64,
    )
        ensures
            *final(self) == (App { state: final(self).state, ..*old(self) }),
            initial_loaded(
                old(self).state,
                final(self).state,
                buffer_id@,
                stats,
                read_rows(*rows),
                now_ms,
            ),
    {
        load_initial(&mut self.state, buffer_id, stats, rows, now_ms);
    }

    /// Puts older rows above those that a buffer holds; an empty buffer gets its first page. `rows` are
    /// what the log said to what [`older_rows_of`] asks, where it could be read.
    pub fn load_older_messages(
        &mut self,
        buffer_id: &str,
        stats: Option<LogStats>,
        rows: &Option<Vec<StoredMessage>>,
        now_ms: i64,
    )
        ensures
            *final(self) == (App { state: final(self).state, ..*old(self) }),
            ({
                let s0 = old(self).state;
                if s0.buffers@.contains_key(buffer_id@) && !s0.buffers@[buffer_id@].history_exhausted
                    && s0.buffers@[buffer_id@].messages@.len() == 0 {
                    initial_loaded(
                        s0,
                        final(self).state,
                        buffer_id@,
                        stats,
                        read_rows(*rows),
                        now_ms,
                    )
                } else {
                    older_loaded(s0, final(self).state, buffer_id@, read_rows(*rows), now_ms)
                }
            }),
    {
        let empty = match self.state.buffers.get(buffer_id) {
            None => {
                return;
            },
            Some(b) => {
                if b.history_exhausted {
                    return;
                }
                b.messages.len() == 0
            },
        };
        if empty {
            load_initial(&mut self.state, buffer_id, stats, rows, now_ms);
            return;
        }
        load_older(&mut self.state, buffer_id, rows, now_ms);
    }
}

/// Puts older rows above those that a buffer holds.
fn load_older(state: &mut AppState, buffer_id: &str, rows: &Option<Vec<StoredMessage>>, now_ms: i64)
    requires
        old(state).buffers@.contains_key(buffer_id@),
        !old(state).buffers@[buffer_id@].history_exhausted,
    ensures
        older_loaded(*old(state), *final(state), buffer_id@, read_rows(*rows), now_ms),
{
    if split_log_buffer_id(state, buffer_id).is_none() {
        return;
    }
    let rows = match rows {
        None => {
            return;
        },
        Some(rows) => rows,
    };
    match state.buffers.get_mut(buffer_id) {
        None => {},
        Some(b) => {
            let mut all = lines_of(rows, now_ms);
            let ghost new = all@;
            let ghost old_lines = b.messages@;
            all.append(&mut b.messages);
            assert(line_models(all@) =~= line_models(new) + line_models(old_lines));
            b.messages = all;
            if rows.len() < PAGE_ROWS {
                b.history_exhausted = true;
            }
        },
    }
}

/// The buffer of the log whose older rows come into view.
pub open spec fn page_wanted(app: App) -> Option<Seq<char>> {
    match app.state.active_buffer_id {
        Some(id) if app.state.buffers@.contains_key(id@) && app.state.buffers@[id@].buffer_type
            == BufferType::Log && !app.state.buffers@[id@].history_exhausted && app.scroll_offset
            + PAGE_MARGIN >= app.state.buffers@[id@].messages@.len() => Some(id@),
        _ => None,
    }
}

impl App {
    /// The buffer of the log whose older rows come into view, so that they are to be loaded.
    pub fn maybe_paginate_log_buffer(&self) -> (r: Option<String>)
        ensures
            opt_text(r) == page_wanted(*self),
    {
        let id = match &self.state.active_buffer_id {
            None => {
                return None;
            },
            Some(id) => id,
        };
        match self.state.buffers.get(id.as_str()) {
            None => None,
            Some(b) => {
                let n: usize = b.messages.len();
                let near = n <= PAGE_MARGIN || self.scroll_offset >= n - PAGE_MARGIN;
                if b.buffer_type == BufferType::Log && !b.history_exhausted && near {
                    Some(id.clone())
                } else {
                    None
                }
            },
        }
    }
}

/// Loading older rows never disturbs what is shown: the lines that were there stay the last ones.
pub proof fn older_rows_go_above(
    before: AppState,
    after: AppState,
    id: Seq<char>,
    rows: Option<Seq<StoredMessage>>,
    now_ms: i64,
    i: int,
)
    requires
        older_loaded(before, after, id, rows, now_ms),
        before.buffers@.contains_key(id),
        0 <= i < before.buffers@[id].messages@.len(),
    ensures
        ({
            let b = before.buffers@[id].messages@;
            let c = after.buffers@[id].messages@;
            c.len() >= b.len() && c[c.len() - b.len() + i]@ == b[i]@
        }),
{
    let b = before.buffers@[id].messages@;
    let c = after.buffers@[id].messages@;
    if log_place(before, id) is Some && !before.buffers@[id].history_exhausted && rows is Some {
        let l = stored_lines(rows->0, now_ms);
        assert(line_models(c) == l + line_models(b));
        assert(line_models(c).len() == c.len());
        assert(line_models(b).len() == b.len());
        assert((l + line_models(b))[l.len() + i] == line_models(b)[i]);
        assert(line_models(c)[l.len() + i] == c[l.len() + i]@);
    }
}

/// The log is read page by page until there is no more: after a full page the rows before the new first line
/// are asked for, after a page that is not full none are; and a line says what its row says.
pub proof fn the_log_is_read_to_its_beginning(
    before: AppState,
    after: AppState,
    id: Seq<char>,
    rows: Seq<StoredMessage>,
    now_ms: i64,
    i: int,
)
    requires
        older_loaded(before, after, id, Some(rows), now_ms),
        log_place(before, id) is Some,
        !before.buffers@[id].history_exhausted,
        before.buffers@[id].messages@.len() > 0,
    ensures
        older_than(before, id) is Some,
        rows.len() < 200 ==> older_than(after, id) is None,
        rows.len() >= 200 ==> older_than(after, id) is Some,
        after.buffers@[id].messages@.len() == rows.len() + before.buffers@[id].messages@.len(),
        0 <= i < rows.len() ==> {
            let m = after.buffers@[id].messages@[i];
            &&& m.text@ == rows[i].text@
            &&& opt_text(m.nick) == opt_text(rows[i].nick)
            &&& m.highlight == rows[i].highlight
        },
{
    let b = before.buffers@[id].messages@;
    let c = after.buffers@[id].messages@;
    let l = stored_lines(rows, now_ms);
    assert(line_models(c) == l + line_models(b));
    assert(line_models(c).len() == c.len());
    assert(line_models(b).len() == b.len());
    if 0 <= i < rows.len() {
        assert(line_models(c)[i] == l[i]);
        assert(line_models(c)[i] == c[i]@);
    }
}

proof fn lemma_logs_opened(
    before: AppState,
    after: AppState,
    conn: Seq<char>,
    names: Seq<Seq<char>>,
    i: int,
    id: Seq<char>,
)
    requires
        log_buffers_opened(before, after, conn, names),
    ensures
        after.connections == before.connections,
        before.buffers@.contains_key(id) ==> after.buffers@.contains_key(id),
        before.buffers@.contains_key(id) && before.buffers@[id].buffer_type == BufferType::Log
            ==> after.buffers@[id].buffer_type == BufferType::Log,
        0 <= i < names.len() ==> after.buffers@.contains_key(buffer_id_seq(conn, names[i])) && after.buffers@[
            buffer_id_seq(conn, names[i])
        ].buffer_type == BufferType::Log,
    decreases names.len(),
{
    if names.len() > 0 {
        let rest = names.drop_last();
        let middle = choose|middle: AppState|
            log_buffers_opened(before, middle, conn, names.drop_last()) && #[trigger] opened(
                middle,
                after,
                conn,
                BufferType::Log,
                names.last(),
            );
        lemma_logs_opened(before, middle, conn, rest, i, id);
        if 0 <= i < rest.len() {
            assert(rest[i] == names[i]);
        }
    }
}

/// Every log can be read: each network that is found has a connection of its own, and each of its logs a
/// buffer.
pub proof fn every_log_has_a_buffer(
    config: Config,
    before: AppState,
    after: AppState,
    networks: Seq<NetworkLog>,
    i: int,
    j: int,
)
    requires
        networks_added(config, before, after, networks),
        0 <= i < networks.len(),
        0 <= j < networks[i].buffers@.len(),
    ensures
        ({
            let conn = LOG_CONN_PREFIX@ + networks[i].name@;
            let id = buffer_id_seq(conn, networks[i].buffers@[j]@);
            &&& after.connections@.contains_key(conn)
            &&& after.buffers@.contains_key(id)
            &&& after.buffers@[id].buffer_type == BufferType::Log
        }),
    decreases networks.len(),
{
    let rest = networks.drop_last();
    let last = networks.last();
    let conn = LOG_CONN_PREFIX@ + networks[i].name@;
    let id = buffer_id_seq(conn, networks[i].buffers@[j]@);
    let middle = choose|middle: AppState|
        networks_added(config, before, middle, networks.drop_last()) && #[trigger] network_added(
            config,
            middle,
            after,
            networks.last(),
        );
    let own = LOG_CONN_PREFIX@ + last.name@;
    let m = choose|m: AppState|
        {
            &&& m == (AppState { connections: m.connections, ..middle })
            &&& m.connections@ == middle.connections@.insert(own, m.connections@[own])
            &&& m.connections.keys() == with_key(middle.connections.keys(), own)
            &&& log_connection(m.connections@[own], own, network_label(config, last.name@))
            &&& #[trigger] log_buffers_opened(m, after, own, texts(last.buffers@))
        };
    if i < rest.len() {
        assert(rest[i] == networks[i]);
        every_log_has_a_buffer(config, before, middle, rest, i, j);
        lemma_logs_opened(m, after, own, texts(last.buffers@), -1, id);
    } else {
        assert(texts(last.buffers@).len() == last.buffers@.len());
        assert(texts(last.buffers@)[j] == last.buffers@[j]@);
        lemma_logs_opened(m, after, own, texts(last.buffers@), j, id);
    }
}

/// The browser opens on the first log there is, and on none only where there is none.
pub proof fn the_first_log_is_shown(networks: Seq<NetworkLog>, i: int)
    requires
        0 <= i <= networks.len(),
    ensures
        match first_log_from(networks, i) {
            Some(id) => exists|k: int|
                i <= k < networks.len() && (#[trigger] networks[k]).buffers@.len() > 0 && id == buffer_id_seq(
                    LOG_CONN_PREFIX@ + networks[k].name@,
                    networks[k].buffers@[0]@,
                ) && forall|j: int| i <= j < k ==> (#[trigger] networks[j]).buffers@.len() == 0,
            None => forall|j: int| i <= j < networks.len() ==> (#[trigger] networks[j]).buffers@.len() == 0,
        },
    decreases networks.len() - i,
{
    if i < networks.len() {
        if networks[i].buffers@.len() > 0 {
            assert(texts(networks[i].buffers@)[0] == networks[i].buffers@[0]@);
        } else {
            the_first_log_is_shown(networks, i + 1);
        }
    }
}

} // verus!
