//! Buffers, connections and the state that the client keeps about them.
use vstd::prelude::*;

use crate::chathistory::ChatHistory;
use crate::collections::{with_key, without_key, StrMap, StrSet};
use crate::keyring::Keyring;
use crate::multiline::Limits;
use crate::text::{
    chars_of, concat, cut_first, decimal, decimal_seq, lower, lower_seq, opt_text, same, split_once, texts,
};

verus! {

broadcast use vstd::string::group_string_axioms;

/// What a buffer shows.
#[derive(Clone, Copy, Debug, PartialEq, Eq, Structural)]
pub enum BufferType {
    Server,
    Channel,
    Query,
    DccChat,
    Special,
    Shell,
    Mentions,
    Log,
}

/// What kind of line a message is.
#[derive(Clone, Copy, Debug, PartialEq, Eq, Structural)]
pub enum MessageType {
    Message,
    Action,
    Notice,
    Event,
    MentionLog,
}

/// How much attention a buffer asks for.
#[derive(Clone, Copy, Debug, PartialEq, Eq, Structural)]
pub enum ActivityLevel {
    Quiet,
    Activity,
    Mention,
}

/// Where a connection stands.
#[derive(Clone, Copy, Debug, PartialEq, Eq, Structural)]
pub enum ConnectionStatus {
    Disconnected,
    Connecting,
    Connected,
    Error,
}

/// One line of a buffer.
#[derive(Debug)]
pub struct Message {
    pub id: u64,
    /// Milliseconds since the Unix epoch.
    pub at_ms: i64,
    pub message_type: MessageType,
    pub nick: Option<String>,
    pub nick_mode: Option<char>,
    pub text: String,
    pub highlight: bool,
    pub event_key: Option<String>,
    pub event_params: Vec<String>,
    /// The server's message id.
    pub msgid: Option<String>,
}

/// The model of a [`Message`].
#[verifier::ext_equal]
pub struct MessageV {
    pub id: u64,
    pub at_ms: i64,
    pub message_type: MessageType,
    pub nick: Option<Seq<char>>,
    pub nick_mode: Option<char>,
    pub text: Seq<char>,
    pub highlight: bool,
    pub event_key: Option<Seq<char>>,
    pub event_params: Seq<Seq<char>>,
    pub msgid: Option<Seq<char>>,
}

impl View for Message {
    type V = MessageV;

    open spec fn view(&self) -> MessageV {
        MessageV {
            id: self.id,
            at_ms: self.at_ms,
            message_type: self.message_type,
            nick: opt_text(self.nick),
            nick_mode: self.nick_mode,
            text: self.text@,
            highlight: self.highlight,
            event_key: opt_text(self.event_key),
            event_params: texts(self.event_params@),
            msgid: opt_text(self.msgid),
        }
    }
}

/// A line that reports an event under a theme key, with the text as its only parameter.
pub open spec fn event_v(id: u64, at_ms: i64, text: Seq<char>, key: Option<Seq<char>>) -> MessageV {
    MessageV {
        id,
        at_ms,
        message_type: MessageType::Event,
        nick: None,
        nick_mode: None,
        text,
        highlight: false,
        event_key: key,
        event_params: if key is Some {
            seq![text]
        } else {
            Seq::empty()
        },
        msgid: None,
    }
}

/// Someone in a channel.
#[derive(Debug)]
pub struct NickEntry {
    pub nick: String,
    pub ident: Option<String>,
    pub host: Option<String>,
    /// Mode prefix characters, highest first.
    pub prefix: String,
}

/// One window of the client.
pub struct Buffer {
    pub id: String,
    pub connection_id: String,
    pub buffer_type: BufferType,
    pub name: String,
    pub messages: Vec<Message>,
    pub activity: ActivityLevel,
    pub unread_count: u32,
    pub users: StrMap<NickEntry>,
    /// Who spoke, the latest first.
    pub last_speakers: Vec<String>,
    /// The `ident@host` that the server stamped on the peer of a query.
    pub peer_handle: Option<String>,
    pub log_total_lines: Option<u64>,
    pub log_oldest_ts: Option<i64>,
    pub log_newest_ts: Option<i64>,
    pub history_exhausted: bool,
    pub log_initial_loaded: bool,
    pub pin_backlog: bool,
}

/// A buffer that nothing has happened in.
pub open spec fn blank(b: Buffer) -> bool {
    &&& b.messages@ == Seq::<Message>::empty()
    &&& b.activity == ActivityLevel::Quiet
    &&& b.unread_count == 0
    &&& b.users@ == Map::<Seq<char>, NickEntry>::empty()
    &&& b.users.keys() == Seq::<Seq<char>>::empty()
    &&& b.last_speakers@ == Seq::<String>::empty()
    &&& b.peer_handle is None
    &&& b.log_total_lines is None
    &&& b.log_oldest_ts is None
    &&& b.log_newest_ts is None
    &&& !b.history_exhausted
    &&& !b.log_initial_loaded
    &&& !b.pin_backlog
}

impl Buffer {
    /// An empty buffer called `name` on `conn_id`.
    pub fn named(conn_id: &str, buffer_type: BufferType, name: &str) -> (r: Buffer)
        ensures
            r.id@ == buffer_id_seq(conn_id@, name@),
            r.connection_id@ == conn_id@,
            r.name@ == name@,
            r.buffer_type == buffer_type,
            blank(r),
    {
        Buffer {
            id: make_buffer_id(conn_id, name),
            connection_id: conn_id.to_string(),
            buffer_type,
            name: name.to_string(),
            messages: Vec::new(),
            activity: ActivityLevel::Quiet,
            unread_count: 0,
            users: StrMap::new(),
            last_speakers: Vec::new(),
            peer_handle: None,
            log_total_lines: None,
            log_oldest_ts: None,
            log_newest_ts: None,
            history_exhausted: false,
            log_initial_loaded: false,
            pin_backlog: false,
        }
    }
}

/// The id of the buffer called `name` on a connection: names differ without regard to case.
pub open spec fn buffer_id_seq(conn_id: Seq<char>, name: Seq<char>) -> Seq<char> {
    conn_id + seq!['/'] + lower_seq(name)
}

/// The id of the buffer called `name` on a connection.
pub fn make_buffer_id(conn_id: &str, name: &str) -> (r: String)
    ensures
        r@ == buffer_id_seq(conn_id@, name@),
{
    let mut r = conn_id.to_string();
    r.push('/');
    assert(r@ =~= conn_id@ + seq!['/']);
    r.append(lower(name).as_str());
    r
}

/// What the user configured for one server.
#[derive(Debug)]
pub struct ServerConfig {
    pub label: String,
    pub address: String,
    pub port: u16,
    pub tls: bool,
    pub channels: Vec<String>,
    pub nick: Option<String>,
    pub username: Option<String>,
    pub password: Option<String>,
    pub sasl_user: Option<String>,
    pub sasl_pass: Option<String>,
    pub sasl_mechanism: Option<String>,
    pub client_cert_path: Option<String>,
    pub sasl_key_path: Option<String>,
    pub autosendcmd: Option<String>,
    pub auto_reconnect: Option<bool>,
    pub reconnect_delay: Option<u64>,
    pub reconnect_max_retries: Option<u32>,
    pub bouncer_network_id: Option<String>,
    pub bouncer_control: bool,
}

impl ServerConfig {
    /// Both configurations say the same.
    pub open spec fn agrees(&self, other: &ServerConfig) -> bool {
        &&& self.label@ == other.label@
        &&& self.address@ == other.address@
        &&& self.port == other.port
        &&& self.tls == other.tls
        &&& texts(self.channels@) == texts(other.channels@)
        &&& opt_text(self.nick) == opt_text(other.nick)
        &&& opt_text(self.username) == opt_text(other.username)
        &&& opt_text(self.password) == opt_text(other.password)
        &&& opt_text(self.sasl_user) == opt_text(other.sasl_user)
        &&& opt_text(self.sasl_pass) == opt_text(other.sasl_pass)
        &&& opt_text(self.sasl_mechanism) == opt_text(other.sasl_mechanism)
        &&& opt_text(self.client_cert_path) == opt_text(other.client_cert_path)
        &&& opt_text(self.sasl_key_path) == opt_text(other.sasl_key_path)
        &&& opt_text(self.autosendcmd) == opt_text(other.autosendcmd)
        &&& self.auto_reconnect == other.auto_reconnect
        &&& self.reconnect_delay == other.reconnect_delay
        &&& self.reconnect_max_retries == other.reconnect_max_retries
        &&& opt_text(self.bouncer_network_id) == opt_text(other.bouncer_network_id)
        &&& self.bouncer_control == other.bouncer_control
    }

    /// Whether the configuration binds the connection to a bouncer.
    pub open spec fn bound(&self) -> bool {
        self.bouncer_network_id is Some || self.bouncer_control
    }

    /// A copy of the configuration.
    pub fn copy(&self) -> (r: ServerConfig)
        ensures
            r.agrees(self),
    {
        ServerConfig {
            label: self.label.clone(),
            address: self.address.clone(),
            port: self.port,
            tls: self.tls,
            channels: copy_texts(&self.channels),
            nick: self.nick.clone(),
            username: self.username.clone(),
            password: self.password.clone(),
            sasl_user: self.sasl_user.clone(),
            sasl_pass: self.sasl_pass.clone(),
            sasl_mechanism: self.sasl_mechanism.clone(),
            client_cert_path: self.client_cert_path.clone(),
            sasl_key_path: self.sasl_key_path.clone(),
            autosendcmd: self.autosendcmd.clone(),
            auto_reconnect: self.auto_reconnect,
            reconnect_delay: self.reconnect_delay,
            reconnect_max_retries: self.reconnect_max_retries,
            bouncer_network_id: self.bouncer_network_id.clone(),
            bouncer_control: self.bouncer_control,
        }
    }
}

/// A copy of a list of texts.
pub fn copy_texts(v: &Vec<String>) -> (r: Vec<String>)
    ensures
        r@ == v@,
{
    let mut r: Vec<String> = Vec::new();
    let mut i: usize = 0;
    while i < v.len()
        invariant
            i <= v@.len(),
            r@ == v@.take(i as int),
        decreases v@.len() - i,
    {
        r.push(v[i].clone());
        i = i + 1;
        assert(v@.take(i as int) =~= v@.take(i - 1).push(v@[i - 1]));
    }
    assert(v@.take(v@.len() as int) =~= v@);
    r
}

/// What a bouncer said a connection is bound to.
#[derive(Debug)]
pub enum Identity {
    Control,
    Network(String),
}

impl Identity {
    /// A copy of the identity.
    pub fn copy(&self) -> (r: Identity)
        ensures
            r == *self,
    {
        match self {
            Identity::Control => Identity::Control,
            Identity::Network(network) => Identity::Network(network.clone()),
        }
    }
}

/// The bouncer software behind a connection.
#[derive(Clone, Copy, Debug, PartialEq, Eq, Structural)]
pub enum Provider {
    Lurker,
    Soju,
}

/// One server that the client talks to.
pub struct Connection {
    pub id: String,
    pub label: String,
    pub status: ConnectionStatus,
    pub nick: String,
    /// The client's own `ident@host`.
    pub own_handle: Option<String>,
    pub user_modes: String,
    pub error: Option<String>,
    pub lag_ms: Option<u64>,
    pub lag_pending: bool,
    pub reconnect_attempts: u32,
    pub reconnect_delay_secs: u64,
    /// When to try again, in monotonic milliseconds.
    pub next_reconnect: Option<u64>,
    pub should_reconnect: bool,
    pub joined_channels: Vec<String>,
    pub origin_config: ServerConfig,
    pub enabled_caps: StrSet,
    /// What fits into a multiline batch, where the server takes such batches.
    pub multiline: Option<Limits>,
    pub batch_ref_counter: u64,
    pub network_scope: Option<String>,
    pub bouncer_identity: Option<Identity>,
    /// How the server compares names.
    pub casemapping: String,
    /// Whether the server watches nicks for its users.
    pub monitor_supported: bool,
    /// The most rows of history that the server hands out at once, where it says so.
    pub chathistory_max: Option<u64>,
    pub chathistory: ChatHistory,
    /// The address that the client has on the connection, which it offers for direct chats.
    pub local_ip: Option<String>,
}

/// The name of a batch.
pub open spec fn batch_ref_seq(n: u64) -> Seq<char> {
    "ml"@ + decimal_seq(n as nat)
}

impl Connection {
    /// The name under which the network's rows are kept.
    pub open spec fn key(&self) -> Seq<char> {
        match self.network_scope {
            Some(scope) => scope@,
            None => self.label@,
        }
    }

    /// Whether the server keeps the history of this connection.
    pub open spec fn owns_history(&self) -> bool {
        self.network_id() is Some || self.control()
    }

    /// Whether the connection is the control connection of a bouncer.
    pub open spec fn control(&self) -> bool {
        self.origin_config.bouncer_control || self.bouncer_identity matches Some(Identity::Control)
    }

    /// The bouncer network that the connection is bound to.
    pub open spec fn network_id(&self) -> Option<Seq<char>> {
        match self.bouncer_identity {
            Some(Identity::Network(network)) => Some(network@),
            _ => opt_text(self.origin_config.bouncer_network_id),
        }
    }

    /// The name under which the network's rows are kept.
    pub fn network_key(&self) -> (r: &String)
        ensures
            r@ == self.key(),
    {
        match &self.network_scope {
            Some(scope) => scope,
            None => &self.label,
        }
    }

    /// Whether the server keeps the history of this connection.
    pub fn server_owns_history(&self) -> (r: bool)
        ensures
            r == self.owns_history(),
    {
        self.bouncer_network_id().is_some() || self.bouncer_control()
    }

    /// Whether the connection is the control connection of a bouncer.
    pub fn bouncer_control(&self) -> (r: bool)
        ensures
            r == self.control(),
    {
        if self.origin_config.bouncer_control {
            return true;
        }
        match &self.bouncer_identity {
            Some(Identity::Control) => true,
            _ => false,
        }
    }

    /// Names the next batch.
    pub fn next_batch_ref(&mut self) -> (r: String)
        ensures
            *final(self) == (Connection {
                batch_ref_counter: id_after(old(self).batch_ref_counter),
                ..*old(self)
            }),
            r@ == batch_ref_seq(id_after(old(self).batch_ref_counter)),
    {
        if self.batch_ref_counter == u64::MAX {
            assert((u64::MAX + 1) % 0x1_0000_0000_0000_0000 == 0);
            self.batch_ref_counter = 0;
        } else {
            self.batch_ref_counter = self.batch_ref_counter + 1;
        }
        concat("ml", decimal(self.batch_ref_counter).as_str())
    }

    /// The bouncer network that the connection is bound to.
    pub fn bouncer_network_id(&self) -> (r: Option<String>)
        ensures
            opt_text(r) == self.network_id(),
    {
        match &self.bouncer_identity {
            Some(Identity::Network(network)) => Some(network.clone()),
            _ => self.origin_config.bouncer_network_id.clone(),
        }
    }
}

/// A notice that hands a new key to a peer.
#[derive(Debug)]
pub struct PendingE2eSend {
    pub connection_id: String,
    pub target: String,
    pub notice_text: String,
}

/// The model of a [`PendingE2eSend`].
#[verifier::ext_equal]
pub struct PendingE2eSendV {
    pub connection_id: Seq<char>,
    pub target: Seq<char>,
    pub notice_text: Seq<char>,
}

impl View for PendingE2eSend {
    type V = PendingE2eSendV;

    open spec fn view(&self) -> PendingE2eSendV {
        PendingE2eSendV {
            connection_id: self.connection_id@,
            target: self.target@,
            notice_text: self.notice_text@,
        }
    }
}

/// Buffers, connections and what is remembered across them.
pub struct AppState {
    pub buffers: StrMap<Buffer>,
    pub connections: StrMap<Connection>,
    pub active_buffer_id: Option<String>,
    pub previous_buffer_id: Option<String>,
    pub message_counter: u64,
    pub keyring: Option<Keyring>,
    pub pending_e2e_sends: Vec<PendingE2eSend>,
    /// Buffers with activity, the longest waiting first.
    pub activity_order: Vec<String>,
    /// The places that messages on their way through the translator hold in their buffers.
    pub echo_slots: Vec<EchoSlot>,
}

/// The place that a message on its way through the translator holds in its buffer.
#[derive(Debug)]
pub struct EchoSlot {
    pub buffer_id: String,
    pub echo_id: u64,
}

/// A place was reserved behind those that are held already.
pub open spec fn slot_reserved(
    before: Seq<EchoSlot>,
    after: Seq<EchoSlot>,
    buffer_id: Seq<char>,
    echo_id: u64,
) -> bool {
    &&& after.len() == before.len() + 1
    &&& after.drop_last() == before
    &&& after.last().buffer_id@ == buffer_id
    &&& after.last().echo_id == echo_id
}

/// `new` is `old` with `added` below its last line.
pub open spec fn appended(old_buffer: Buffer, new_buffer: Buffer, added: Seq<MessageV>) -> bool {
    &&& new_buffer == (Buffer { messages: new_buffer.messages, ..old_buffer })
    &&& new_buffer.messages@.len() == old_buffer.messages@.len() + added.len()
    &&& new_buffer.messages@.take(old_buffer.messages@.len() as int) == old_buffer.messages@
    &&& forall|i: int|
        0 <= i < added.len() ==> (#[trigger] new_buffer.messages@[old_buffer.messages@.len() + i])@
            == added[i]
}

/// `new_buffers` is `old_buffers` with `added` at the end of the buffer `id`, where there is one.
pub open spec fn appended_at(
    old_buffers: StrMap<Buffer>,
    new_buffers: StrMap<Buffer>,
    id: Seq<char>,
    added: Seq<MessageV>,
) -> bool {
    if old_buffers@.contains_key(id) {
        &&& new_buffers.keys() == old_buffers.keys()
        &&& new_buffers@ == old_buffers@.insert(id, new_buffers@[id])
        &&& appended(old_buffers@[id], new_buffers@[id], added)
    } else {
        new_buffers == old_buffers
    }
}

/// The `n`th id after `id`; ids wrap around.
pub open spec fn nth_id(id: u64, n: nat) -> u64 {
    ((id + n) % 0x1_0000_0000_0000_0000) as u64
}

/// The id after `id`.
pub open spec fn id_after(id: u64) -> u64 {
    nth_id(id, 1)
}

/// Ids are counted one after the other.
pub proof fn lemma_nth_id(id: u64, n: nat)
    ensures
        nth_id(id, 0) == id,
        id_after(nth_id(id, n)) == nth_id(id, n + 1),
{
    let m = 0x1_0000_0000_0000_0000int;
    assert(((id + n) % m + 1) % m == (id + n + 1) % m) by {
        vstd::arithmetic::div_mod::lemma_add_mod_noop(id + n, 1, m);
        vstd::arithmetic::div_mod::lemma_mod_twice(id + n, m);
        vstd::arithmetic::div_mod::lemma_add_mod_noop((id + n) % m, 1, m);
    }
}

/// Adding lines in two steps adds them in one.
pub proof fn lemma_appended_twice(
    a: StrMap<Buffer>,
    b: StrMap<Buffer>,
    c: StrMap<Buffer>,
    id: Seq<char>,
    x: Seq<MessageV>,
    y: Seq<MessageV>,
)
    requires
        appended_at(a, b, id, x),
        appended_at(b, c, id, y),
    ensures
        appended_at(a, c, id, x + y),
{
    if a@.contains_key(id) {
        let na = a@[id].messages@.len();
        let nb = b@[id].messages@.len();
        assert(c@ =~= a@.insert(id, c@[id]));
        assert(c@[id].messages@.take(na as int) =~= c@[id].messages@.take(nb as int).take(na as int));
        assert forall|i: int| 0 <= i < (x + y).len() implies (#[trigger] c@[id].messages@[na + i])@ == (x
            + y)[i] by {
            if i < x.len() {
                assert(c@[id].messages@.take(nb as int)[na + i] == b@[id].messages@[na + i]);
            } else {
                assert(na + i == nb + (i - x.len()));
                assert(c@[id].messages@[nb + (i - x.len())]@ == y[i - x.len()]);
            }
        }
    }
}

/// Adding nothing changes nothing.
pub proof fn lemma_appended_nothing(a: StrMap<Buffer>, id: Seq<char>)
    ensures
        appended_at(a, a, id, Seq::empty()),
{
    if a@.contains_key(id) {
        assert(a@ =~= a@.insert(id, a@[id]));
        assert(a@[id].messages@.take(a@[id].messages@.len() as int) =~= a@[id].messages@);
    }
}

/// A line that someone said.
pub open spec fn said_v(
    id: u64,
    at_ms: i64,
    message_type: MessageType,
    nick: Seq<char>,
    nick_mode: Option<char>,
    text: Seq<char>,
) -> MessageV {
    MessageV {
        id,
        at_ms,
        message_type,
        nick: Some(nick),
        nick_mode,
        text,
        highlight: false,
        event_key: None,
        event_params: Seq::empty(),
        msgid: None,
    }
}

/// The lines that someone said one after the other, with the ids that follow `counter`.
pub open spec fn said_lines(
    counter: u64,
    at_ms: i64,
    message_type: MessageType,
    nick: Seq<char>,
    nick_mode: Option<char>,
    lines: Seq<Seq<char>>,
) -> Seq<MessageV> {
    Seq::new(
        lines.len(),
        |i: int|
            said_v(nth_id(counter, (i + 1) as nat), at_ms, message_type, nick, nick_mode, lines[i]),
    )
}

/// An event is reported in the active buffer.
pub open spec fn event_shown(before: AppState, after: AppState, text: Seq<char>, now_ms: i64) -> bool {
    match before.active_buffer_id {
        Some(active) => {
            &&& after == (AppState {
                buffers: after.buffers,
                message_counter: id_after(before.message_counter),
                ..before
            })
            &&& appended_at(
                before.buffers,
                after.buffers,
                active@,
                seq![event_v(id_after(before.message_counter), now_ms, text, None)],
            )
        },
        None => after == before,
    }
}

/// Events are reported in the active buffer, one after the other.
pub open spec fn events_shown(
    before: AppState,
    after: AppState,
    lines: Seq<Seq<char>>,
    now_ms: i64,
) -> bool
    decreases lines.len(),
{
    if lines.len() == 0 {
        after == before
    } else {
        exists|middle: AppState|
            events_shown(before, middle, lines.drop_last(), now_ms) && #[trigger] event_shown(
                middle,
                after,
                lines.last(),
                now_ms,
            )
    }
}

/// Lines that someone said are shown in a buffer.
pub open spec fn lines_shown(
    before: AppState,
    after: AppState,
    buffer_id: Seq<char>,
    message_type: MessageType,
    nick: Seq<char>,
    nick_mode: Option<char>,
    lines: Seq<Seq<char>>,
    now_ms: i64,
) -> bool {
    &&& after == (AppState {
        buffers: after.buffers,
        message_counter: nth_id(before.message_counter, lines.len()),
        ..before
    })
    &&& appended_at(
        before.buffers,
        after.buffers,
        buffer_id,
        said_lines(before.message_counter, now_ms, message_type, nick, nick_mode, lines),
    )
}

/// The connection that the placeholder buffers belong to.
pub const DEFAULT_CONN_ID: &'static str = "_default";

/// `list` without `name`.
pub open spec fn seq_without(list: Seq<Seq<char>>, name: Seq<char>) -> Seq<Seq<char>>
    decreases list.len(),
{
    if list.len() == 0 {
        Seq::empty()
    } else {
        let init = seq_without(list.drop_last(), name);
        if list.last() == name {
            init
        } else {
            init.push(list.last())
        }
    }
}

/// `list` without `name`.
pub fn without(list: &Vec<String>, name: &str) -> (r: Vec<String>)
    ensures
        texts(r@) == seq_without(texts(list@), name@),
{
    let ghost all = texts(list@);
    let mut r: Vec<String> = Vec::new();
    let mut i: usize = 0;
    assert(all.take(0) =~= Seq::<Seq<char>>::empty());
    assert(texts(r@) =~= Seq::<Seq<char>>::empty());
    while i < list.len()
        invariant
            i <= list@.len(),
            all == texts(list@),
            texts(r@) == seq_without(all.take(i as int), name@),
        decreases list@.len() - i,
    {
        assert(all.take(i + 1).drop_last() =~= all.take(i as int));
        assert(all.take(i + 1).last() == list@[i as int]@);
        let ghost was = texts(r@);
        if !same(list[i].as_str(), name) {
            r.push(list[i].clone());
            assert(texts(r@) =~= was.push(all[i as int]));
        }
        i = i + 1;
    }
    assert(all.take(all.len() as int) =~= all);
    r
}

/// The buffers among `ids` that have a number.
pub open spec fn numbered(state: AppState, ids: Seq<Seq<char>>) -> Seq<Seq<char>>
    decreases ids.len(),
{
    if ids.len() == 0 {
        Seq::empty()
    } else {
        let init = numbered(state, ids.drop_last());
        if state.buffers@[ids.last()].connection_id@ == DEFAULT_CONN_ID@ {
            init
        } else {
            init.push(ids.last())
        }
    }
}

/// A buffer became the active one.
pub open spec fn activated(before: AppState, after: AppState, id: Seq<char>) -> bool {
    &&& after == (AppState {
        buffers: after.buffers,
        active_buffer_id: after.active_buffer_id,
        previous_buffer_id: after.previous_buffer_id,
        activity_order: after.activity_order,
        ..before
    })
    &&& after.buffers.keys() == before.buffers.keys()
    &&& after.buffers@ == before.buffers@.insert(
        id,
        Buffer { activity: ActivityLevel::Quiet, unread_count: 0, ..before.buffers@[id] },
    )
    &&& texts(after.activity_order@) == seq_without(texts(before.activity_order@), id)
    &&& opt_text(after.active_buffer_id) == Some(id)
    &&& after.previous_buffer_id == (if opt_text(before.active_buffer_id) == Some(id) {
        before.previous_buffer_id
    } else {
        before.active_buffer_id
    })
}

impl AppState {
    /// The connection that a buffer id belongs to: that of the buffer, and of a closed one the part
    /// before the first slash.
    pub open spec fn conn_of(&self, buffer_id: Seq<char>) -> Option<Seq<char>> {
        if self.buffers@.contains_key(buffer_id) {
            Some(self.buffers@[buffer_id].connection_id@)
        } else {
            match cut_first(buffer_id, '/') {
                Some(p) => Some(p.0),
                None => None,
            }
        }
    }

    /// A state with no buffers and no connections.
    pub fn new() -> (r: AppState)
        ensures
            r.buffers@ == Map::<Seq<char>, Buffer>::empty(),
            r.buffers.keys() == Seq::<Seq<char>>::empty(),
            r.connections@ == Map::<Seq<char>, Connection>::empty(),
            r.connections.keys() == Seq::<Seq<char>>::empty(),
            r.active_buffer_id is None,
            r.previous_buffer_id is None,
            r.message_counter == 0,
            r.keyring is None,
            r.pending_e2e_sends@ == Seq::<PendingE2eSend>::empty(),
            r.activity_order@ == Seq::<String>::empty(),
            r.echo_slots@ == Seq::<EchoSlot>::empty(),
    {
        AppState {
            buffers: StrMap::new(),
            connections: StrMap::new(),
            active_buffer_id: None,
            previous_buffer_id: None,
            message_counter: 0,
            keyring: None,
            pending_e2e_sends: Vec::new(),
            activity_order: Vec::new(),
            echo_slots: Vec::new(),
        }
    }

    /// Holds a place in a buffer for a message that is still to be translated.
    pub fn reserve_echo_slot(&mut self, buffer_id: &str, echo_id: u64)
        ensures
            *final(self) == (AppState { echo_slots: final(self).echo_slots, ..*old(self) }),
            slot_reserved(old(self).echo_slots@, final(self).echo_slots@, buffer_id@, echo_id),
    {
        self.echo_slots.push(EchoSlot { buffer_id: buffer_id.to_string(), echo_id });
        assert(self.echo_slots@.drop_last() =~= old(self).echo_slots@);
    }

    /// The connection that a buffer id belongs to.
    pub fn connection_of(&self, buffer_id: &str) -> (r: Option<String>)
        ensures
            opt_text(r) == self.conn_of(buffer_id@),
    {
        match self.buffers.get(buffer_id) {
            Some(buffer) => Some(buffer.connection_id.clone()),
            None => match split_once(buffer_id, '/') {
                Some((conn_id, _)) => Some(conn_id),
                None => None,
            },
        }
    }

    /// Takes the next message id.
    pub fn next_message_id(&mut self) -> (r: u64)
        ensures
            r == id_after(old(self).message_counter),
            *final(self) == (AppState { message_counter: r, ..*old(self) }),
    {
        if self.message_counter == u64::MAX {
            assert((u64::MAX + 1) % 0x1_0000_0000_0000_0000 == 0);
            self.message_counter = 0;
        } else {
            self.message_counter = self.message_counter + 1;
        }
        self.message_counter
    }

    /// Puts a line at the end of a buffer; a missing buffer takes nothing.
    pub fn add_message(&mut self, buffer_id: &str, message: Message)
        ensures
            *final(self) == (AppState { buffers: final(self).buffers, ..*old(self) }),
            appended_at(old(self).buffers, final(self).buffers, buffer_id@, seq![message@]),
    {
        match self.buffers.get_mut(buffer_id) {
            Some(buffer) => {
                let ghost before = buffer.messages@;
                buffer.messages.push(message);
                assert(buffer.messages@.take(before.len() as int) =~= before);
            },
            None => {},
        }
    }

    /// Shows that someone said something.
    pub fn say(
        &mut self,
        buffer_id: &str,
        message_type: MessageType,
        nick: &str,
        nick_mode: Option<char>,
        text: String,
        now_ms: i64,
    )
        ensures
            *final(self) == (AppState {
                buffers: final(self).buffers,
                message_counter: id_after(old(self).message_counter),
                ..*old(self)
            }),
            appended_at(
                old(self).buffers,
                final(self).buffers,
                buffer_id@,
                seq![
                    said_v(
                        id_after(old(self).message_counter),
                        now_ms,
                        message_type,
                        nick@,
                        nick_mode,
                        text@,
                    ),
                ],
            ),
    {
        let id: u64 = self.next_message_id();
        let message = Message {
            id,
            at_ms: now_ms,
            message_type,
            nick: Some(nick.to_string()),
            nick_mode,
            text,
            highlight: false,
            event_key: None,
            event_params: Vec::new(),
            msgid: None,
        };
        assert(message@ =~= said_v(id, now_ms, message_type, nick@, nick_mode, text@));
        self.add_message(buffer_id, message);
    }

    /// Shows the first `n` of some lines that someone said.
    pub fn say_lines(
        &mut self,
        buffer_id: &str,
        message_type: MessageType,
        nick: &str,
        nick_mode: Option<char>,
        lines: &Vec<String>,
        n: usize,
        now_ms: i64,
    )
        requires
            n <= lines@.len(),
        ensures
            lines_shown(
                *old(self),
                *final(self),
                buffer_id@,
                message_type,
                nick@,
                nick_mode,
                texts(lines@).take(n as int),
                now_ms,
            ),
    {
        let ghost before = *self;
        let ghost shown = |k: int|
            said_lines(
                before.message_counter,
                now_ms,
                message_type,
                nick@,
                nick_mode,
                texts(lines@.take(k)),
            );
        proof {
            lemma_nth_id(before.message_counter, 0);
            lemma_appended_nothing(before.buffers, buffer_id@);
            assert(shown(0) =~= Seq::<MessageV>::empty());
        }
        let mut i: usize = 0;
        while i < n
            invariant
                i <= n <= lines@.len(),
                *self == (AppState {
                    buffers: self.buffers,
                    message_counter: nth_id(before.message_counter, i as nat),
                    ..before
                }),
                forall|k: int|
                    #[trigger] shown(k) == said_lines(
                        before.message_counter,
                        now_ms,
                        message_type,
                        nick@,
                        nick_mode,
                        texts(lines@.take(k)),
                    ),
                appended_at(before.buffers, self.buffers, buffer_id@, shown(i as int)),
            decreases n - i,
        {
            let ghost middle = self.buffers;
            self.say(buffer_id, message_type, nick, nick_mode, lines[i].clone(), now_ms);
            proof {
                lemma_nth_id(before.message_counter, i as nat);
                let one = seq![
                    said_v(
                        nth_id(before.message_counter, (i + 1) as nat),
                        now_ms,
                        message_type,
                        nick@,
                        nick_mode,
                        lines@[i as int]@,
                    ),
                ];
                lemma_appended_twice(
                    before.buffers,
                    middle,
                    self.buffers,
                    buffer_id@,
                    shown(i as int),
                    one,
                );
                assert(shown(i + 1) =~= shown(i as int) + one);
            }
            i = i + 1;
        }
        assert(texts(lines@.take(n as int)) =~= texts(lines@).take(n as int));
    }

    /// The highest mode prefix of a nick in a buffer.
    pub open spec fn prefix_of(&self, buffer_id: Seq<char>, nick: Seq<char>) -> Option<char> {
        if self.buffers@.contains_key(buffer_id) && self.buffers@[buffer_id].users@.contains_key(
            lower_seq(nick),
        ) {
            let prefix = self.buffers@[buffer_id].users@[lower_seq(nick)].prefix@;
            if prefix.len() > 0 {
                Some(prefix[0])
            } else {
                None
            }
        } else {
            None
        }
    }

    /// The highest mode prefix of a nick in a buffer.
    pub fn nick_prefix(&self, buffer_id: &str, nick: &str) -> (r: Option<char>)
        ensures
            r == self.prefix_of(buffer_id@, nick@),
    {
        match self.buffers.get(buffer_id) {
            None => None,
            Some(buffer) => {
                let name = lower(nick);
                match buffer.users.get(name.as_str()) {
                    None => None,
                    Some(entry) => {
                        let v = chars_of(entry.prefix.as_str());
                        if v.len() > 0 {
                            Some(v[0])
                        } else {
                            None
                        }
                    },
                }
            },
        }
    }

    /// The active buffer, where it exists.
    pub open spec fn active(&self) -> Option<Buffer> {
        match self.active_buffer_id {
            Some(id) if self.buffers@.contains_key(id@) => Some(self.buffers@[id@]),
            _ => None,
        }
    }

    /// The active buffer, where it exists.
    pub fn active_buffer(&self) -> (r: Option<&Buffer>)
        ensures
            match r {
                Some(b) => self.active() == Some(*b),
                None => self.active() is None,
            },
    {
        match &self.active_buffer_id {
            Some(id) => self.buffers.get(id.as_str()),
            None => None,
        }
    }

    /// Makes a buffer the active one: its activity is seen, and the buffer before it is remembered.
    pub fn set_active_buffer(&mut self, buffer_id: &str)
        ensures
            if old(self).buffers@.contains_key(buffer_id@) {
                activated(*old(self), *final(self), buffer_id@)
            } else {
                *final(self) == *old(self)
            },
    {
        let ghost before = *self;
        match self.buffers.get_mut(buffer_id) {
            None => {
                return;
            },
            Some(buffer) => {
                buffer.activity = ActivityLevel::Quiet;
                buffer.unread_count = 0;
            },
        }
        self.activity_order = without(&self.activity_order, buffer_id);
        let here = match &self.active_buffer_id {
            Some(active) => same(active.as_str(), buffer_id),
            None => false,
        };
        if !here {
            self.previous_buffer_id = self.active_buffer_id.clone();
            self.active_buffer_id = Some(buffer_id.to_string());
        }
    }

    /// The buffers that have a number: all but those of the placeholder connection.
    pub fn numbered_buffer_ids(&self) -> (r: Vec<String>)
        ensures
            texts(r@) == numbered(*self, self.buffers.keys()),
    {
        let mut r: Vec<String> = Vec::new();
        let n: usize = self.buffers.len();
        let mut i: usize = 0;
        assert(self.buffers.keys().take(0) =~= Seq::<Seq<char>>::empty());
        assert(texts(r@) =~= Seq::<Seq<char>>::empty());
        while i < n
            invariant
                n == self.buffers.keys().len(),
                i <= n,
                texts(r@) == numbered(*self, self.buffers.keys().take(i as int)),
            decreases n - i,
        {
            let key = self.buffers.key_at(i);
            let buffer = self.buffers.value_at(i);
            assert(self.buffers.keys().take(i + 1).drop_last() =~= self.buffers.keys().take(i as int));
            assert(self.buffers.keys().take(i + 1).last() == key@);
            let ghost was = texts(r@);
            if !same(buffer.connection_id.as_str(), DEFAULT_CONN_ID) {
                let ghost k = key@;
                r.push(key.clone());
                assert(texts(r@) =~= was.push(k));
            }
            i = i + 1;
        }
        assert(self.buffers.keys().take(n as int) =~= self.buffers.keys());
        r
    }

    /// The position of the active buffer among all.
    pub open spec fn active_position(&self) -> Option<int> {
        match self.active_buffer_id {
            Some(id) if self.buffers.keys().contains(id@) => Some(self.buffers.keys().index_of(id@)),
            _ => None,
        }
    }

    /// The buffer a step away from the active one, around the ends; the first without an active one.
    pub open spec fn neighbour(&self, forward: bool) -> Option<Seq<char>> {
        let keys = self.buffers.keys();
        if keys.len() == 0 {
            None
        } else {
            match self.active_position() {
                None => Some(keys[0]),
                Some(i) => if forward {
                    Some(keys[if i + 1 < keys.len() { i + 1 } else { 0 }])
                } else {
                    Some(keys[if i > 0 { i - 1 } else { keys.len() - 1 }])
                },
            }
        }
    }

    /// Goes to the next or the previous buffer.
    pub fn step_buffer(&mut self, forward: bool)
        ensures
            match old(self).neighbour(forward) {
                Some(id) => activated(*old(self), *final(self), id),
                None => *final(self) == *old(self),
            },
    {
        let n: usize = self.buffers.len();
        if n == 0 {
            return;
        }
        let mut at: Option<usize> = None;
        match &self.active_buffer_id {
            None => {},
            Some(id) => {
                let mut i: usize = 0;
                while i < n
                    invariant
                        n == self.buffers.keys().len(),
                        i <= n,
                        self.buffers.ordered(),
                        match at {
                            Some(k) => k < n && self.buffers.keys()[k as int] == id@,
                            None => forall|j: int| 0 <= j < i ==> self.buffers.keys()[j] != id@,
                        },
                    decreases n - i,
                {
                    if at.is_none() && same(self.buffers.key_at(i).as_str(), id.as_str()) {
                        at = Some(i);
                    }
                    i = i + 1;
                }
                proof {
                    match at {
                        Some(k) => {
                            assert(self.buffers.keys().contains(id@));
                            assert(self.buffers.keys().index_of(id@) == k);
                        },
                        None => {},
                    }
                }
            },
        }
        let target: usize = match at {
            None => 0,
            Some(i) => if forward {
                if i + 1 < n {
                    i + 1
                } else {
                    0
                }
            } else if i > 0 {
                i - 1
            } else {
                n - 1
            },
        };
        let id = self.buffers.key_at(target).clone();
        self.set_active_buffer(id.as_str());
    }

    /// Reports an event in a buffer under a theme key.
    pub fn add_event(&mut self, buffer_id: &str, text: String, key: Option<String>, now_ms: i64)
        ensures
            *final(self) == (AppState {
                buffers: final(self).buffers,
                message_counter: id_after(old(self).message_counter),
                ..*old(self)
            }),
            appended_at(
                old(self).buffers,
                final(self).buffers,
                buffer_id@,
                seq![
                    event_v(id_after(old(self).message_counter), now_ms, text@, opt_text(key)),
                ],
            ),
    {
        let id: u64 = self.next_message_id();
        let mut event_params: Vec<String> = Vec::new();
        if key.is_some() {
            event_params.push(text.clone());
        }
        let message = Message {
            id,
            at_ms: now_ms,
            message_type: MessageType::Event,
            nick: None,
            nick_mode: None,
            text,
            highlight: false,
            event_key: key,
            event_params,
            msgid: None,
        };
        assert(message@ =~= event_v(id, now_ms, text@, opt_text(key)));
        self.add_message(buffer_id, message);
    }

    /// Reports an event in the active buffer.
    pub fn add_local_event(&mut self, text: String, now_ms: i64)
        ensures
            event_shown(*old(self), *final(self), text@, now_ms),
    {
        let active = self.active_buffer_id.clone();
        match active {
            Some(active) => self.add_event(active.as_str(), text, None, now_ms),
            None => {},
        }
    }

    /// Reports events in the active buffer, one after the other.
    pub fn add_local_events(&mut self, lines: Vec<String>, now_ms: i64)
        ensures
            events_shown(*old(self), *final(self), texts(lines@), now_ms),
    {
        let ghost before = *self;
        let ghost all = texts(lines@);
        let mut i: usize = 0;
        assert(all.take(0) =~= Seq::<Seq<char>>::empty());
        while i < lines.len()
            invariant
                i <= lines@.len(),
                all == texts(lines@),
                events_shown(before, *self, all.take(i as int), now_ms),
            decreases lines@.len() - i,
        {
            let ghost middle = *self;
            self.add_local_event(lines[i].clone(), now_ms);
            proof {
                assert(all.take(i + 1).drop_last() =~= all.take(i as int));
                assert(all.take(i + 1).last() == lines@[i as int]@);
                assert(event_shown(middle, *self, all.take(i + 1).last(), now_ms));
            }
            i = i + 1;
        }
        assert(all.take(all.len() as int) =~= all);
    }

    /// Adds or replaces a connection.
    pub fn add_connection(&mut self, connection: Connection)
        ensures
            *final(self) == (AppState { connections: final(self).connections, ..*old(self) }),
            final(self).connections@ == old(self).connections@.insert(connection.id@, connection),
            final(self).connections.keys() == with_key(old(self).connections.keys(), connection.id@),
    {
        self.connections.insert(connection.id.clone(), connection);
    }

    /// Adds or replaces a buffer.
    pub fn add_buffer(&mut self, buffer: Buffer)
        ensures
            *final(self) == (AppState { buffers: final(self).buffers, ..*old(self) }),
            final(self).buffers@ == old(self).buffers@.insert(buffer.id@, buffer),
            final(self).buffers.keys() == with_key(old(self).buffers.keys(), buffer.id@),
            final(self).buffers.keys() == (if old(self).buffers@.contains_key(buffer.id@) {
                old(self).buffers.keys()
            } else {
                old(self).buffers.keys().push(buffer.id@)
            }),
    {
        self.buffers.insert(buffer.id.clone(), buffer);
    }
}

/// Where the focus goes when the active buffer is closed: to the one before it, else to the first.
pub open spec fn focus_after_close(before: AppState, id: Seq<char>) -> Option<Seq<char>> {
    let keys = before.buffers.keys().remove(before.buffers.keys().index_of(id));
    match before.previous_buffer_id {
        Some(p) if p@ != id && before.buffers@.contains_key(p@) => Some(p@),
        _ => if keys.len() > 0 {
            Some(keys[0])
        } else {
            None
        },
    }
}

/// A buffer was closed.
pub open spec fn closed(before: AppState, after: AppState, id: Seq<char>) -> bool {
    if !before.buffers@.contains_key(id) {
        after == before
    } else {
        &&& after == (AppState {
            buffers: after.buffers,
            active_buffer_id: after.active_buffer_id,
            previous_buffer_id: after.previous_buffer_id,
            activity_order: after.activity_order,
            ..before
        })
        &&& after.buffers@ == before.buffers@.remove(id)
        &&& after.buffers.keys() == before.buffers.keys().remove(before.buffers.keys().index_of(id))
        &&& texts(after.activity_order@) == seq_without(texts(before.activity_order@), id)
        &&& if opt_text(before.active_buffer_id) == Some(id) {
            &&& opt_text(after.active_buffer_id) == focus_after_close(before, id)
            &&& after.previous_buffer_id is None
        } else {
            &&& after.active_buffer_id == before.active_buffer_id
            &&& after.previous_buffer_id == (if opt_text(before.previous_buffer_id) == Some(id) {
                None
            } else {
                before.previous_buffer_id
            })
        }
    }
}

/// Buffers were closed one after the other.
pub open spec fn all_closed(before: AppState, after: AppState, ids: Seq<Seq<char>>) -> bool
    decreases ids.len(),
{
    if ids.len() == 0 {
        after == before
    } else {
        exists|middle: AppState|
            all_closed(before, middle, ids.drop_last()) && #[trigger] closed(
                middle,
                after,
                ids.last(),
            )
    }
}

/// `list` with one name in the place of another.
pub open spec fn seq_renamed(list: Seq<Seq<char>>, from: Seq<char>, to: Seq<char>) -> Seq<Seq<char>> {
    Seq::new(
        list.len(),
        |i: int|
            if list[i] == from {
                to
            } else {
                list[i]
            },
    )
}

/// A list of keys after one was taken out and came back under another name, behind all others unless
/// that name was there.
pub open spec fn moved_last(keys: Seq<Seq<char>>, from: Seq<char>, to: Seq<char>) -> Seq<Seq<char>> {
    let rest = keys.remove(keys.index_of(from));
    if rest.contains(to) {
        rest
    } else {
        rest.push(to)
    }
}

/// A buffer goes on under another id and name, behind all others; its place among the waiting buffers
/// stays.
pub open spec fn rekeyed(
    before: AppState,
    after: AppState,
    from: Seq<char>,
    to: Seq<char>,
    name: Seq<char>,
) -> bool {
    if !before.buffers@.contains_key(from) {
        after == before
    } else {
        &&& after == (AppState {
            buffers: after.buffers,
            active_buffer_id: after.active_buffer_id,
            activity_order: after.activity_order,
            ..before
        })
        &&& after.buffers@ == before.buffers@.remove(from).insert(to, after.buffers@[to])
        &&& after.buffers.keys() == moved_last(before.buffers.keys(), from, to)
        &&& after.buffers@[to] == (Buffer {
            id: after.buffers@[to].id,
            name: after.buffers@[to].name,
            ..before.buffers@[from]
        })
        &&& after.buffers@[to].id@ == to
        &&& after.buffers@[to].name@ == name
        &&& texts(after.activity_order@) == seq_renamed(texts(before.activity_order@), from, to)
        &&& opt_text(after.active_buffer_id) == (if opt_text(before.active_buffer_id) == Some(from) {
            Some(to)
        } else {
            opt_text(before.active_buffer_id)
        })
    }
}

impl AppState {
    /// Closes a buffer; the focus goes back to the one before it.
    pub fn remove_buffer(&mut self, buffer_id: &str)
        ensures
            closed(*old(self), *final(self), buffer_id@),
    {
        let ghost before = *self;
        if !self.buffers.contains(buffer_id) {
            return;
        }
        let _gone = self.buffers.remove(buffer_id);
        self.activity_order = without(&self.activity_order, buffer_id);
        let active = match &self.active_buffer_id {
            Some(active) => same(active.as_str(), buffer_id),
            None => false,
        };
        let previous_gone = match &self.previous_buffer_id {
            Some(previous) => same(previous.as_str(), buffer_id),
            None => false,
        };
        if active {
            let n: usize = self.buffers.len();
            let back = match &self.previous_buffer_id {
                Some(previous) => if self.buffers.contains(previous.as_str()) {
                    Some(previous.clone())
                } else {
                    None
                },
                None => None,
            };
            self.active_buffer_id = match back {
                Some(previous) => Some(previous),
                None => if n > 0 {
                    Some(self.buffers.key_at(0).clone())
                } else {
                    None
                },
            };
            self.previous_buffer_id = None;
        } else if previous_gone {
            self.previous_buffer_id = None;
        }
    }

    /// Closes buffers one after the other.
    pub fn remove_buffers(&mut self, ids: &Vec<String>)
        ensures
            all_closed(*old(self), *final(self), texts(ids@)),
    {
        let ghost before = *self;
        let ghost all = texts(ids@);
        let mut i: usize = 0;
        assert(all.take(0) =~= Seq::<Seq<char>>::empty());
        while i < ids.len()
            invariant
                i <= ids@.len(),
                all == texts(ids@),
                all_closed(before, *self, all.take(i as int)),
            decreases ids@.len() - i,
        {
            let ghost middle = *self;
            self.remove_buffer(ids[i].as_str());
            proof {
                assert(all.take(i + 1).drop_last() =~= all.take(i as int));
                assert(all.take(i + 1).last() == ids@[i as int]@);
                assert(closed(middle, *self, all.take(i + 1).last()));
            }
            i = i + 1;
        }
        assert(all.take(all.len() as int) =~= all);
    }

    /// Notes activity in a buffer; it waits behind those that waited before.
    pub fn set_activity(&mut self, buffer_id: &str, level: ActivityLevel)
        ensures
            if old(self).buffers@.contains_key(buffer_id@) {
                &&& *final(self) == (AppState {
                    buffers: final(self).buffers,
                    activity_order: final(self).activity_order,
                    ..*old(self)
                })
                &&& final(self).buffers.keys() == old(self).buffers.keys()
                &&& final(self).buffers@ == old(self).buffers@.insert(
                    buffer_id@,
                    Buffer { activity: level, ..old(self).buffers@[buffer_id@] },
                )
                &&& texts(final(self).activity_order@) == (if level == ActivityLevel::Quiet {
                    seq_without(texts(old(self).activity_order@), buffer_id@)
                } else if texts(old(self).activity_order@).contains(buffer_id@) {
                    texts(old(self).activity_order@)
                } else {
                    texts(old(self).activity_order@).push(buffer_id@)
                })
            } else {
                *final(self) == *old(self)
            },
    {
        match self.buffers.get_mut(buffer_id) {
            None => {
                return;
            },
            Some(buffer) => {
                buffer.activity = level;
            },
        }
        if level == ActivityLevel::Quiet {
            self.activity_order = without(&self.activity_order, buffer_id);
        } else if !crate::text::has_text(&self.activity_order, buffer_id) {
            let ghost was = texts(self.activity_order@);
            self.activity_order.push(buffer_id.to_string());
            assert(texts(self.activity_order@) =~= was.push(buffer_id@));
        }
    }

    /// The buffer that has waited longest.
    pub fn next_activity_buffer(&self) -> (r: Option<&String>)
        ensures
            match r {
                Some(id) => self.activity_order@.len() > 0 && id@ == texts(self.activity_order@)[0],
                None => self.activity_order@.len() == 0,
            },
    {
        if self.activity_order.len() > 0 {
            Some(&self.activity_order[0])
        } else {
            None
        }
    }

    /// Lets a buffer go on under another id and name.
    pub fn rekey_buffer(&mut self, from: &str, to: &str, name: String)
        ensures
            rekeyed(*old(self), *final(self), from@, to@, name@),
    {
        let ghost before = *self;
        if !self.buffers.contains(from) {
            return;
        }
        let mut buffer = match self.buffers.remove(from) {
            None => {
                return;
            },
            Some(buffer) => buffer,
        };
        buffer.id = to.to_string();
        buffer.name = name;
        let _others = self.buffers.len();
        assert(self.buffers@.contains_key(to@) == self.buffers.keys().contains(to@));
        self.buffers.insert(to.to_string(), buffer);
        let ghost all = texts(self.activity_order@);
        let mut order: Vec<String> = Vec::new();
        let mut i: usize = 0;
        while i < self.activity_order.len()
            invariant
                i <= self.activity_order@.len(),
                all == texts(self.activity_order@),
                texts(order@) =~= seq_renamed(all, from@, to@).take(i as int),
            decreases self.activity_order@.len() - i,
        {
            let ghost was = texts(order@);
            let next = if same(self.activity_order[i].as_str(), from) {
                to.to_string()
            } else {
                self.activity_order[i].clone()
            };
            let ghost nv = next@;
            order.push(next);
            assert(texts(order@) =~= was.push(nv));
            i = i + 1;
        }
        assert(texts(order@) =~= seq_renamed(all, from@, to@));
        self.activity_order = order;
        let active = match &self.active_buffer_id {
            Some(active) => same(active.as_str(), from),
            None => false,
        };
        if active {
            self.active_buffer_id = Some(to.to_string());
        }
    }

    /// Forgets a connection.
    pub fn remove_connection(&mut self, id: &str)
        ensures
            *final(self) == (AppState { connections: final(self).connections, ..*old(self) }),
            final(self).connections@ == old(self).connections@.remove(id@),
            final(self).connections.keys() == without_key(old(self).connections.keys(), id@),
    {
        let _gone = self.connections.remove(id);
    }
}

/// Going to the next buffer and back, or back and forth, ends where it began.
pub proof fn a_step_and_back(before: AppState, there: AppState, back: AppState, forward: bool)
    requires
        before.buffers.ordered(),
        before.active_buffer_id matches Some(id) && before.buffers@.contains_key(id@),
        before.neighbour(forward) matches Some(id) && activated(before, there, id),
        there.neighbour(!forward) matches Some(id) && activated(there, back, id),
    ensures
        opt_text(back.active_buffer_id) == opt_text(before.active_buffer_id),
        before.buffers.keys().len() > 1 ==> opt_text(there.active_buffer_id) != opt_text(before.active_buffer_id),
{
    let keys = before.buffers.keys();
    let i = keys.index_of(before.active_buffer_id->0@);
    let j = keys.index_of(there.active_buffer_id->0@);
    assert(keys[i] == before.active_buffer_id->0@);
    let next = if forward {
        if i + 1 < keys.len() {
            i + 1
        } else {
            0
        }
    } else if i > 0 {
        i - 1
    } else {
        keys.len() - 1
    };
    assert(there.active_buffer_id->0@ == keys[next]);
    assert(keys.contains(keys[next]));
    assert(keys[j] == keys[next]);
    assert(j == next);
}

/// Closing a buffer closes no other, and leaves another one active as long as there is one.
pub proof fn closing_keeps_the_others(before: AppState, after: AppState, id: Seq<char>, other: Seq<char>)
    requires
        before.buffers.ordered(),
        before.buffers@.contains_key(id),
        before.active_buffer_id matches Some(active) && before.buffers@.contains_key(active@),
        closed(before, after, id),
        other != id,
    ensures
        !after.buffers@.contains_key(id),
        after.buffers@.contains_key(other) <==> before.buffers@.contains_key(other),
        before.buffers@.contains_key(other) ==> after.buffers@[other] == before.buffers@[other],
        before.buffers@.contains_key(other) ==> after.active_buffer_id is Some && after.buffers@.contains_key(
            after.active_buffer_id->0@,
        ),
        opt_text(before.active_buffer_id) != Some(id) ==> after.active_buffer_id == before.active_buffer_id,
{
    let keys = before.buffers.keys();
    let at = keys.index_of(id);
    assert(keys.contains(id));
    let rest = keys.remove(at);
    if before.buffers@.contains_key(other) {
        assert(keys.contains(other));
        let k = keys.index_of(other);
        assert(rest[if k < at { k } else { k - 1 }] == other);
        assert(rest.len() > 0);
        assert(rest[0] == keys[if 0 < at { 0 } else { 1 }]);
        assert(rest[0] != id);
    }
}

/// Leaving out a name keeps the order of the others.
proof fn lemma_without_first(list: Seq<Seq<char>>, name: Seq<char>)
    requires
        list.len() > 1,
        list[0] == name,
        list.no_duplicates(),
    ensures
        seq_without(list, name) == list.skip(1),
    decreases list.len(),
{
    let rest = list.drop_last();
    assert(list.last() == list[list.len() - 1]);
    if list.len() == 2 {
        assert(rest =~= seq![name]);
        assert(rest.drop_last() =~= Seq::<Seq<char>>::empty());
        assert(seq_without(rest.drop_last(), name) =~= Seq::<Seq<char>>::empty());
        assert(seq_without(rest, name) =~= Seq::<Seq<char>>::empty());
        assert(seq_without(list, name) =~= list.skip(1));
    } else {
        assert(rest.no_duplicates());
        lemma_without_first(rest, name);
        assert(seq_without(list, name) =~= list.skip(1));
    }
}

/// Buffers with activity wait in line: once the one in front is looked at, the next in line is in front.
pub proof fn activity_waits_in_line(before: AppState, after: AppState)
    requires
        texts(before.activity_order@).no_duplicates(),
        before.activity_order@.len() > 1,
        activated(before, after, texts(before.activity_order@)[0]),
    ensures
        after.activity_order@.len() == before.activity_order@.len() - 1,
        texts(after.activity_order@)[0] == texts(before.activity_order@)[1],
        after.buffers@[texts(before.activity_order@)[0]].unread_count == 0,
{
    lemma_without_first(texts(before.activity_order@), texts(before.activity_order@)[0]);
    assert(texts(after.activity_order@).len() == after.activity_order@.len());
    assert(texts(before.activity_order@).len() == before.activity_order@.len());
}

/// Every buffer has a number but those of the program itself, in the order in which they were opened.
pub proof fn buffers_are_numbered_in_order(state: AppState, ids: Seq<Seq<char>>)
    ensures
        numbered(state, ids) == ids.filter(
            |id: Seq<char>| state.buffers@[id].connection_id@ != DEFAULT_CONN_ID@,
        ),
    decreases ids.len(),
{
    reveal(Seq::filter);
    if ids.len() > 0 {
        buffers_are_numbered_in_order(state, ids.drop_last());
    } else {
        assert(numbered(state, ids) =~= ids.filter(
            |id: Seq<char>| state.buffers@[id].connection_id@ != DEFAULT_CONN_ID@,
        ));
    }
}

/// Closing buffers one after the other closes those and no others.
pub proof fn lemma_all_closed(before: AppState, after: AppState, ids: Seq<Seq<char>>)
    requires
        all_closed(before, after, ids),
    ensures
        forall|k: Seq<char>| #[trigger]
            after.buffers@.contains_key(k) <==> before.buffers@.contains_key(k) && !ids.contains(k),
        forall|k: Seq<char>| #[trigger] after.buffers@.contains_key(k) ==> after.buffers@[k] == before.buffers@[k],
        after.connections == before.connections,
    decreases ids.len(),
{
    if ids.len() > 0 {
        let rest = ids.drop_last();
        let last = ids.last();
        let middle = choose|middle: AppState|
            all_closed(before, middle, rest) && #[trigger] closed(middle, after, last);
        lemma_all_closed(before, middle, rest);
        assert forall|k: Seq<char>| #[trigger] after.buffers@.contains_key(k) <==> before.buffers@.contains_key(k)
            && !ids.contains(k) by {
            assert(middle.buffers@.contains_key(k) <==> before.buffers@.contains_key(k) && !rest.contains(k));
            if ids.contains(k) && k != last {
                assert(rest[ids.index_of(k)] == k);
            }
            if rest.contains(k) {
                assert(ids[rest.index_of(k)] == k);
            }
            assert(ids[ids.len() - 1] == last);
        }
        assert forall|k: Seq<char>| #[trigger] after.buffers@.contains_key(k) implies after.buffers@[k]
            == before.buffers@[k] by {
            assert(middle.buffers@.contains_key(k));
        }
    }
}

/// Leaving a name out of a list keeps all others, in their order.
pub proof fn others_stay_listed(list: Seq<Seq<char>>, name: Seq<char>)
    ensures
        seq_without(list, name) == list.filter(|x: Seq<char>| x != name),
    decreases list.len(),
{
    reveal(Seq::filter);
    if list.len() > 0 {
        others_stay_listed(list.drop_last(), name);
    } else {
        assert(seq_without(list, name) =~= list.filter(|x: Seq<char>| x != name));
    }
}

/// What is reported stands in the active buffer, line by line and in order, below what stood there.
pub proof fn reports_stand_in_order(before: AppState, after: AppState, lines: Seq<Seq<char>>, now_ms: i64, i: int)
    requires
        events_shown(before, after, lines, now_ms),
        before.active_buffer_id is Some,
        before.buffers@.contains_key((before.active_buffer_id->0)@),
    ensures
        after.active_buffer_id == before.active_buffer_id,
        after.buffers@.contains_key((before.active_buffer_id->0)@),
        ({
            let b = before.buffers@[(before.active_buffer_id->0)@].messages@;
            let a = after.buffers@[(before.active_buffer_id->0)@].messages@;
            &&& b.is_prefix_of(a)
            &&& a.len() == b.len() + lines.len()
            &&& 0 <= i < lines.len() ==> a[b.len() + i].text@ == lines[i]
        }),
    decreases lines.len(),
{
    if lines.len() > 0 {
        let rest = lines.drop_last();
        let middle = choose|middle: AppState|
            events_shown(before, middle, lines.drop_last(), now_ms) && #[trigger] event_shown(
                middle,
                after,
                lines.last(),
                now_ms,
            );
        reports_stand_in_order(before, middle, rest, now_ms, i);
        let id = (before.active_buffer_id->0)@;
        let b = before.buffers@[id].messages@;
        let m = middle.buffers@[id].messages@;
        let a = after.buffers@[id].messages@;
        let n = m.len() as int;
        assert(a[n + 0]@ == event_v(id_after(middle.message_counter), now_ms, lines.last(), None));
        assert(b =~= a.subrange(0, b.len() as int)) by {
            assert forall|j: int| 0 <= j < b.len() implies b[j] == a[j] by {
                assert(b[j] == m.subrange(0, b.len() as int)[j]);
                assert(m[j] == a.take(n)[j]);
            }
        }
        if 0 <= i < rest.len() {
            assert(rest[i] == lines[i]);
            assert(a.take(n)[b.len() + i] == a[b.len() + i]);
        }
    }
}

} // verus!
