//! The outbound gate: the one place that decides whether a message leaves as ciphertext, as plain
//! text, or not at all.
//!
//! A conversation with encryption on never goes out as plain text, except for one-line bot commands
//! in a channel, which stay visible. Every uncertainty is a refusal.
use vstd::prelude::*;

use crate::keyring::{
    channel_target, context_key, context_key_seq, is_channel_target, scope_part, scoped_context, scoped_seq,
    wire_context, wire_seq, Keyring, ReadFault, SCOPE_MARK,
};
use crate::network_scope::{network_scope, scope_seq};
use crate::state::{
    appended_at, buffer_id_seq, event_v, id_after, make_buffer_id, AppState, Buffer, BufferType, Connection,
    NickEntry, PendingE2eSend, PendingE2eSendV,
};
use crate::text::{
    chars_of, concat3, has_char, lower_char, lower_seq, opt_text, same, slice_text, starts_with, strip_prefix,
    text_bytes, texts,
};
use crate::wire::{
    glued, message_lines, messages_keep_the_text, short_lines_stay_whole, split_irc_message,
    MESSAGE_MAX_BYTES,
};

verus! {

broadcast use vstd::string::group_string_axioms;

/// Opens the colour of an error line.
pub const C_ERR: &'static str = "\u{3}04";

/// Ends the colour of a line.
pub const C_RST: &'static str = "\u{f}";

/// What every ciphertext line begins with.
pub const CIPHER_MARK: &'static str = "+RPE2E01";

/// Why the policy refused to put a message on the wire.
#[derive(Clone, Copy, Debug, PartialEq, Eq, Structural)]
pub enum E2eRefusal {
    /// Encryption is on for the peer, whose `ident@host` is not known yet.
    NoPeerHandle,
    /// The keyring could not be read, so encryption may be on.
    KeyringRead,
    /// Encryption is on and failed.
    EncryptFailed,
    /// Encryption is on under the name that the network had before its bouncer binding changed.
    BouncerScopeChanged,
}

/// The reason that a refusal gives.
pub open spec fn refusal_body(reason: E2eRefusal) -> Seq<char> {
    match reason {
        E2eRefusal::NoPeerHandle =>
            "cannot encrypt PM without peer handle \u{2014} wait for a message from them first"@,
        E2eRefusal::KeyringRead =>
            "cannot encrypt \u{2014} keyring read failed; message NOT sent (E2E stays on)"@,
        E2eRefusal::EncryptFailed =>
            "encryption failed \u{2014} message NOT sent as plaintext (use /e2e off to send cleartext)"@,
        E2eRefusal::BouncerScopeChanged =>
            "bouncer network changed \u{2014} message NOT sent (enable /e2e again for this network)"@,
    }
}

/// The line that a refusal shows.
pub open spec fn refusal_line(reason: E2eRefusal) -> Seq<char> {
    C_ERR@ + "[E2E] "@ + refusal_body(reason) + C_RST@
}

impl E2eRefusal {
    /// The themed `[E2E]` line shown to the user when a send is refused.
    pub fn user_message(&self) -> (r: String)
        ensures
            r@ == refusal_line(*self),
    {
        let body = match self {
            E2eRefusal::NoPeerHandle => {
                "cannot encrypt PM without peer handle \u{2014} wait for a message from them first"
            },
            E2eRefusal::KeyringRead => {
                "cannot encrypt \u{2014} keyring read failed; message NOT sent (E2E stays on)"
            },
            E2eRefusal::EncryptFailed => {
                "encryption failed \u{2014} message NOT sent as plaintext (use /e2e off to send cleartext)"
            },
            E2eRefusal::BouncerScopeChanged => {
                "bouncer network changed \u{2014} message NOT sent (enable /e2e again for this network)"
            },
        };
        let mut r = C_ERR.to_string();
        r.append("[E2E] ");
        r.append(body);
        r.append(C_RST);
        r
    }
}

/// What goes on the wire for a send by target, and whether it is ciphertext.
#[derive(Debug)]
pub struct E2eSendPlan {
    pub wire_lines: Vec<String>,
    pub encrypted: bool,
}

/// The prose inside an outgoing payload: all of a plain message, the inner text of an ACTION, and
/// nothing of any other CTCP.
pub open spec fn prose(wire: Seq<char>) -> Option<Seq<char>> {
    if wire.len() >= 2 && wire[0] == '\u{1}' && wire.last() == '\u{1}' {
        let inner = wire.subrange(1, wire.len() - 1);
        if "ACTION "@.is_prefix_of(inner) {
            Some(inner.skip("ACTION "@.len() as int))
        } else {
            None
        }
    } else {
        Some(wire)
    }
}

/// The prose inside an outgoing wire payload, or `None` when there is none to translate.
pub fn translatable_outgoing_body(wire_text: &str) -> (r: Option<String>)
    ensures
        opt_text(r) == prose(wire_text@),
{
    let v = chars_of(wire_text);
    let n: usize = v.len();
    if n >= 2 && v[0] == '\u{1}' && v[n - 1] == '\u{1}' {
        let inner = slice_text(&v, 1, n - 1);
        strip_prefix(inner.as_str(), "ACTION ")
    } else {
        Some(wire_text.to_string())
    }
}

/// The `ident@host` of someone in a channel.
pub open spec fn handle_of(entry: NickEntry) -> Seq<char> {
    (match entry.ident {
        Some(ident) => ident@,
        None => Seq::empty(),
    }) + seq!['@'] + (match entry.host {
        Some(host) => host@,
        None => Seq::empty(),
    })
}

/// The first member of a channel with a handle.
pub open spec fn member_with_handle(buffer: Buffer, handle: Seq<char>, i: int) -> bool {
    &&& 0 <= i < buffer.users.keys().len()
    &&& handle_of(buffer.users@[buffer.users.keys()[i]]) == handle
    &&& forall|j: int|
        0 <= j < i ==> handle_of(buffer.users@[#[trigger] buffer.users.keys()[j]]) != handle
}

/// The nick that a new key for `handle` is sent to.
pub open spec fn rekey_target(
    buffer: Option<Buffer>,
    buffer_type: BufferType,
    name: Seq<char>,
    context: Seq<char>,
    handle: Seq<char>,
) -> Option<Seq<char>> {
    if buffer_type == BufferType::Query {
        if context_key_seq(name, handle) == wire_seq(context) {
            Some(name)
        } else {
            None
        }
    } else {
        match buffer {
            Some(b) => if exists|i: int| member_with_handle(b, handle, i) {
                Some(b.users@[b.users.keys()[choose|i: int| member_with_handle(b, handle, i)]].nick@)
            } else {
                None
            },
            None => None,
        }
    }
}

/// The nick that a new key is sent to: in a query the peer whose context it is, in a channel the
/// first member with the handle.
pub fn rekey_notice_target(
    buffer: Option<&Buffer>,
    buffer_type: BufferType,
    name: &str,
    context: &str,
    target_handle: &str,
) -> (r: Option<String>)
    ensures
        opt_text(r) == rekey_target(
            (match buffer {
                Some(b) => Some(*b),
                None => None,
            }),
            buffer_type,
            name@,
            context@,
            target_handle@,
        ),
{
    if buffer_type == BufferType::Query {
        let key = context_key(name, target_handle);
        let wire = wire_context(context);
        return if key == wire {
            Some(name.to_string())
        } else {
            None
        };
    }
    match buffer {
        None => None,
        Some(b) => {
            let n: usize = b.users.len();
            let mut i: usize = 0;
            while i < n
                invariant
                    n == b.users.keys().len(),
                    i <= n,
                    buffer == Some(b),
                    buffer_type != BufferType::Query,
                    forall|j: int|
                        0 <= j < i ==> handle_of(b.users@[#[trigger] b.users.keys()[j]]) != target_handle@,
                decreases n - i,
            {
                let entry = b.users.value_at(i);
                let ident = match &entry.ident {
                    Some(ident) => ident.as_str(),
                    None => "",
                };
                let host = match &entry.host {
                    Some(host) => host.as_str(),
                    None => "",
                };
                proof {
                    reveal_strlit("");
                    reveal_strlit("@");
                    assert(""@ =~= Seq::<char>::empty());
                    assert("@"@ =~= seq!['@']);
                }
                let handle = concat3(ident, "@", host);
                assert(handle@ == handle_of(*entry));
                if same(handle.as_str(), target_handle) {
                    proof {
                        assert(member_with_handle(*b, target_handle@, i as int));
                        let k = choose|k: int| member_with_handle(*b, target_handle@, k);
                        if k < i {
                            assert(handle_of(b.users@[b.users.keys()[k]]) != target_handle@);
                        } else if i < k {
                            assert(handle_of(b.users@[b.users.keys()[i as int]]) != target_handle@);
                        }
                    }
                    return Some(entry.nick.clone());
                }
                i = i + 1;
            }
            None
        },
    }
}

/// What the policy decided.
#[derive(Debug)]
pub enum Gate {
    /// The text goes out as it is.
    Plain,
    /// A bot command in a channel goes out as it is, visibly.
    BotBypass,
    /// The text is encrypted under a context.
    Encrypt(String),
    /// Nothing goes out.
    Refuse(E2eRefusal),
}

/// The model of a [`Gate`].
pub enum GateV {
    Plain,
    BotBypass,
    Encrypt(Seq<char>),
    Refuse(E2eRefusal),
}

impl View for Gate {
    type V = GateV;

    open spec fn view(&self) -> GateV {
        match self {
            Gate::Plain => GateV::Plain,
            Gate::BotBypass => GateV::BotBypass,
            Gate::Encrypt(context) => GateV::Encrypt(context@),
            Gate::Refuse(reason) => GateV::Refuse(*reason),
        }
    }
}

/// A one-line message that begins like a bot command.
pub open spec fn bot_line(text: Seq<char>) -> bool {
    text.len() > 0 && (text[0] == '.' || text[0] == '!') && !text.contains('\n')
}

/// Whether encryption is on for a conversation under a name that the network had before.
pub open spec fn former_enabled(keyring: Keyring, connection: Connection, wire: Seq<char>) -> bool {
    &&& connection.network_scope is Some
    &&& (keyring.enabled(stored(keyring, scoped_seq(connection.label@, wire))) || keyring.enabled(
        stored(
            keyring,
            scoped_seq(scope_seq(connection.id@, &connection.origin_config, Seq::empty()), wire),
        ),
    ))
}

/// The stored context that a context means.
pub open spec fn stored(keyring: Keyring, context: Seq<char>) -> Seq<char> {
    match keyring.canonical(context) {
        Some(c) => c,
        None => context,
    }
}

impl AppState {
    /// The connection behind a buffer id.
    pub open spec fn connection_behind(&self, buffer_id: Seq<char>) -> Option<Connection> {
        match self.conn_of(buffer_id) {
            Some(c) if self.connections@.contains_key(c) => Some(self.connections@[c]),
            _ => None,
        }
    }

    /// The context of a conversation, under the name of the network where the connection is known.
    pub open spec fn scoped_on(&self, buffer_id: Seq<char>, wire: Seq<char>) -> Seq<char> {
        match self.connection_behind(buffer_id) {
            Some(connection) => scoped_seq(connection.key(), wire),
            None => wire,
        }
    }

    /// The handle of the peer of a query: the one the server stamped, else the last one known.
    pub open spec fn query_handle(&self, buffer_id: Seq<char>, name: Seq<char>) -> Result<
        Option<Seq<char>>,
        ReadFault,
    > {
        if self.buffers@.contains_key(buffer_id) && self.buffers@[buffer_id].peer_handle is Some {
            Ok(Some(self.buffers@[buffer_id].peer_handle->0@))
        } else {
            match (self.keyring, self.connection_behind(buffer_id)) {
                (Some(keyring), Some(connection)) => if keyring.faults.handles {
                    Err(ReadFault)
                } else {
                    Ok(keyring.handle(name, connection.key()))
                },
                _ => Ok(None),
            }
        }
    }

    /// The decision of the policy about one conversation context.
    pub open spec fn context_gate(
        &self,
        keyring: Keyring,
        buffer_id: Seq<char>,
        context: Seq<char>,
        wire: Seq<char>,
        dm: bool,
    ) -> GateV {
        if keyring.faults.configs {
            GateV::Refuse(E2eRefusal::KeyringRead)
        } else if keyring.enabled(context) {
            GateV::Encrypt(context)
        } else if dm && keyring.enabled(wire) {
            GateV::Refuse(E2eRefusal::NoPeerHandle)
        } else {
            match self.connection_behind(buffer_id) {
                Some(connection) if connection.network_scope is Some && keyring.faults.rows =>
                    GateV::Refuse(E2eRefusal::KeyringRead),
                Some(connection) if former_enabled(keyring, connection, wire) => GateV::Refuse(
                    E2eRefusal::BouncerScopeChanged,
                ),
                _ => GateV::Plain,
            }
        }
    }

    /// The decision of the policy about a message. `captured` is the peer's handle at the time the
    /// message was typed, used only where nothing is known now.
    pub open spec fn gate(
        &self,
        buffer_id: Seq<char>,
        name: Seq<char>,
        buffer_type: BufferType,
        text: Seq<char>,
        captured: Option<Seq<char>>,
    ) -> GateV {
        if buffer_type == BufferType::Channel && bot_line(text) {
            GateV::BotBypass
        } else {
            match self.keyring {
                None => GateV::Plain,
                Some(keyring) => match buffer_type {
                    BufferType::Channel => if keyring.faults.rows {
                        GateV::Refuse(E2eRefusal::KeyringRead)
                    } else {
                        self.context_gate(
                            keyring,
                            buffer_id,
                            stored(keyring, self.scoped_on(buffer_id, name)),
                            name,
                            false,
                        )
                    },
                    BufferType::Query => {
                        let handle = match (self.query_handle(buffer_id, name), captured) {
                            (Ok(Some(live)), _) => Ok(Some(live)),
                            (Ok(None), other) => Ok(other),
                            (Err(_), Some(h)) => Ok(Some(h)),
                            (Err(e), None) => Err(e),
                        };
                        match handle {
                            Err(_) => GateV::Refuse(E2eRefusal::KeyringRead),
                            Ok(None) => if keyring.faults.configs {
                                GateV::Refuse(E2eRefusal::KeyringRead)
                            } else if keyring.enabled(name) {
                                GateV::Refuse(E2eRefusal::NoPeerHandle)
                            } else {
                                GateV::Plain
                            },
                            Ok(Some(h)) => self.context_gate(
                                keyring,
                                buffer_id,
                                self.scoped_on(buffer_id, context_key_seq(name, h)),
                                context_key_seq(name, h),
                                true,
                            ),
                        }
                    },
                    _ => GateV::Plain,
                },
            }
        }
    }

    /// Resolves the handle of the peer of a query. Works for a closed query too: its connection is
    /// recovered from the buffer id.
    pub fn resolve_query_peer_handle(&self, buffer_id: &str, buffer_name: &str) -> (r: Result<
        Option<String>,
        ReadFault,
    >)
        ensures
            match r {
                Ok(h) => self.query_handle(buffer_id@, buffer_name@) == Ok::<Option<Seq<char>>, ReadFault>(
                    opt_text(h),
                ),
                Err(e) => self.query_handle(buffer_id@, buffer_name@) == Err::<
                    Option<Seq<char>>,
                    ReadFault,
                >(e),
            },
    {
        match self.buffers.get(buffer_id) {
            Some(buffer) => match &buffer.peer_handle {
                Some(h) => {
                    return Ok(Some(h.clone()));
                },
                None => {},
            },
            None => {},
        }
        match &self.keyring {
            None => Ok(None),
            Some(keyring) => match self.connection_for(buffer_id) {
                None => Ok(None),
                Some(connection) => keyring.last_handle_for_nick(
                    buffer_name,
                    connection.network_key().as_str(),
                ),
            },
        }
    }

    /// The connection behind a buffer id.
    pub fn connection_for(&self, buffer_id: &str) -> (r: Option<&Connection>)
        ensures
            match r {
                Some(c) => self.connection_behind(buffer_id@) == Some(*c),
                None => self.connection_behind(buffer_id@) is None,
            },
    {
        match self.connection_of(buffer_id) {
            Some(conn_id) => self.connections.get(conn_id.as_str()),
            None => None,
        }
    }

    /// The context of a conversation, under the name of the network where the connection is known.
    fn scope(&self, buffer_id: &str, wire: &str) -> (r: String)
        ensures
            r@ == self.scoped_on(buffer_id@, wire@),
    {
        match self.connection_for(buffer_id) {
            Some(connection) => scoped_context(connection.network_key().as_str(), wire),
            None => wire.to_string(),
        }
    }

    /// Decides about one conversation context.
    fn decide_context(
        &self,
        keyring: &Keyring,
        buffer_id: &str,
        context: String,
        wire: &str,
        dm: bool,
    ) -> (r: Gate)
        ensures
            r@ == self.context_gate(*keyring, buffer_id@, context@, wire@, dm),
    {
        match keyring.get_channel_config(context.as_str()) {
            Err(_) => {
                return Gate::Refuse(E2eRefusal::KeyringRead);
            },
            Ok(Some(true)) => {
                return Gate::Encrypt(context);
            },
            Ok(_) => {},
        }
        if dm {
            match keyring.get_channel_config(wire) {
                Err(_) => {
                    return Gate::Refuse(E2eRefusal::KeyringRead);
                },
                Ok(Some(true)) => {
                    return Gate::Refuse(E2eRefusal::NoPeerHandle);
                },
                Ok(_) => {},
            }
        }
        match self.connection_for(buffer_id) {
            None => Gate::Plain,
            Some(connection) => {
                if connection.network_scope.is_none() {
                    return Gate::Plain;
                }
                proof {
                    reveal_strlit("");
                    assert(""@ =~= Seq::<char>::empty());
                }
                let origin = network_scope(connection.id.as_str(), &connection.origin_config, "");
                let a = stored_enabled(keyring, connection.label.as_str(), wire);
                let b = stored_enabled(keyring, origin.as_str(), wire);
                match (a, b) {
                    (Ok(x), Ok(y)) => if x || y {
                        Gate::Refuse(E2eRefusal::BouncerScopeChanged)
                    } else {
                        Gate::Plain
                    },
                    _ => Gate::Refuse(E2eRefusal::KeyringRead),
                }
            },
        }
    }

    /// Decides whether a message goes out, and how.
    pub fn e2e_gate(
        &self,
        buffer_id: &str,
        buffer_name: &str,
        buffer_type: BufferType,
        text: &str,
        captured_peer_handle: Option<&str>,
    ) -> (r: Gate)
        ensures
            r@ == self.gate(
                buffer_id@,
                buffer_name@,
                buffer_type,
                text@,
                (match captured_peer_handle {
                    Some(h) => Some(h@),
                    None => None,
                }),
            ),
    {
        if buffer_type == BufferType::Channel && is_bot_line(text) {
            return Gate::BotBypass;
        }
        let keyring = match &self.keyring {
            None => {
                return Gate::Plain;
            },
            Some(keyring) => keyring,
        };
        match buffer_type {
            BufferType::Channel => {
                let context = self.scope(buffer_id, buffer_name);
                match keyring.canonical_channel_context(context.as_str()) {
                    Err(_) => Gate::Refuse(E2eRefusal::KeyringRead),
                    Ok(found) => {
                        let context = match found {
                            Some(c) => c,
                            None => context,
                        };
                        self.decide_context(keyring, buffer_id, context, buffer_name, false)
                    },
                }
            },
            BufferType::Query => {
                let live = self.resolve_query_peer_handle(buffer_id, buffer_name);
                let handle = match live {
                    Ok(Some(h)) => Some(h),
                    Ok(None) => match captured_peer_handle {
                        Some(h) => Some(h.to_string()),
                        None => None,
                    },
                    Err(_) => match captured_peer_handle {
                        Some(h) => Some(h.to_string()),
                        None => {
                            return Gate::Refuse(E2eRefusal::KeyringRead);
                        },
                    },
                };
                match handle {
                    None => match keyring.get_channel_config(buffer_name) {
                        Err(_) => Gate::Refuse(E2eRefusal::KeyringRead),
                        Ok(Some(true)) => Gate::Refuse(E2eRefusal::NoPeerHandle),
                        Ok(_) => Gate::Plain,
                    },
                    Some(h) => {
                        let wire = context_key(buffer_name, h.as_str());
                        let context = self.scope(buffer_id, wire.as_str());
                        self.decide_context(keyring, buffer_id, context, wire.as_str(), true)
                    },
                }
            },
            _ => Gate::Plain,
        }
    }
}

/// Whether encryption is on for a conversation under one name of its network.
fn stored_enabled(keyring: &Keyring, network: &str, wire: &str) -> (r: Result<bool, ReadFault>)
    requires
        !keyring.faults.configs,
    ensures
        match r {
            Ok(on) => !keyring.faults.rows && on == keyring.enabled(
                stored(*keyring, scoped_seq(network@, wire@)),
            ),
            Err(_) => keyring.faults.rows,
        },
{
    let context = scoped_context(network, wire);
    match keyring.canonical_channel_context(context.as_str()) {
        Err(e) => Err(e),
        Ok(found) => {
            let context = match found {
                Some(c) => c,
                None => context,
            };
            match keyring.get_channel_config(context.as_str()) {
                Ok(Some(true)) => Ok(true),
                _ => Ok(false),
            }
        },
    }
}

/// A one-line message that begins like a bot command.
fn is_bot_line(text: &str) -> (r: bool)
    ensures
        r == bot_line(text@),
{
    let v = chars_of(text);
    v.len() > 0 && (v[0] == '.' || v[0] == '!') && !has_char(text, '\n')
}

/// A new key for a peer, made by a rotation while encrypting.
#[derive(Debug)]
pub struct RekeySend {
    pub target_handle: String,
    pub notice_text: String,
}

/// The cipher could not encrypt.
#[derive(Clone, Copy, Debug, PartialEq, Eq, Structural)]
pub struct SealFault;

/// What the cipher made of a text under the policy's context.
#[derive(Debug)]
pub struct Sealed {
    pub lines: Result<Vec<String>, SealFault>,
    pub rekeys: Vec<RekeySend>,
}

/// The notices that carry new keys to the peers that can be addressed.
pub open spec fn rekey_notices(
    rekeys: Seq<RekeySend>,
    conn_id: Seq<char>,
    buffer: Option<Buffer>,
    buffer_type: BufferType,
    name: Seq<char>,
    context: Seq<char>,
) -> Seq<PendingE2eSendV>
    decreases rekeys.len(),
{
    if rekeys.len() == 0 {
        Seq::empty()
    } else {
        let init = rekey_notices(rekeys.drop_last(), conn_id, buffer, buffer_type, name, context);
        match rekey_target(buffer, buffer_type, name, context, rekeys.last().target_handle@) {
            Some(nick) => init.push(
                PendingE2eSendV {
                    connection_id: conn_id,
                    target: nick,
                    notice_text: rekeys.last().notice_text@,
                },
            ),
            None => init,
        }
    }
}

/// The models of the queued notices.
pub open spec fn send_views(v: Seq<PendingE2eSend>) -> Seq<PendingE2eSendV> {
    v.map_values(|p: PendingE2eSend| p@)
}

/// The buffer with an id, where there is one.
pub open spec fn buffer_at(state: AppState, id: Seq<char>) -> Option<Buffer> {
    if state.buffers@.contains_key(id) {
        Some(state.buffers@[id])
    } else {
        None
    }
}

/// The line that makes a bot command's way around encryption visible.
pub open spec fn bypass_line(name: Seq<char>) -> Seq<char> {
    "[E2E] bot-style message to "@ + name
        + " sent in CLEARTEXT \u{2014} channel lines starting with '.' or '!' bypass encryption for bots"@
}

/// The notices of a rotation are queued behind those that wait already.
pub open spec fn rekeys_queued(
    before: AppState,
    after: AppState,
    rekeys: Seq<RekeySend>,
    buffer_id: Seq<char>,
    name: Seq<char>,
    buffer_type: BufferType,
    context: Seq<char>,
) -> bool {
    &&& after == (AppState { pending_e2e_sends: after.pending_e2e_sends, ..before })
    &&& send_views(after.pending_e2e_sends@) == send_views(before.pending_e2e_sends@) + (
    match before.conn_of(buffer_id) {
        Some(conn_id) => rekey_notices(
            rekeys,
            conn_id,
            buffer_at(before, buffer_id),
            buffer_type,
            name,
            context,
        ),
        None => Seq::empty(),
    })
}

/// A bot command's way around encryption is noted in its channel, where encryption is on there.
pub open spec fn bypass_noted(
    before: AppState,
    after: AppState,
    buffer_id: Seq<char>,
    name: Seq<char>,
    now_ms: i64,
) -> bool {
    match before.conn_of(buffer_id) {
        Some(conn_id) if before.enabled_for(conn_id, name) => {
            &&& after == (AppState {
                buffers: after.buffers,
                message_counter: id_after(before.message_counter),
                ..before
            })
            &&& appended_at(
                before.buffers,
                after.buffers,
                buffer_id,
                seq![
                    event_v(
                        id_after(before.message_counter),
                        now_ms,
                        bypass_line(name),
                        Some("e2e_warning"@),
                    ),
                ],
            )
        },
        _ => after == before,
    }
}

/// How a target is addressed: a channel by its prefix, anyone else as a query.
pub open spec fn target_type(target: Seq<char>) -> BufferType {
    if channel_target(target) {
        BufferType::Channel
    } else {
        BufferType::Query
    }
}

impl AppState {
    /// The name of a connection's network, empty where there is no such connection.
    pub open spec fn key_or_empty(&self, conn_id: Seq<char>) -> Seq<char> {
        if self.connections@.contains_key(conn_id) {
            self.connections@[conn_id].key()
        } else {
            Seq::empty()
        }
    }

    /// Whether encryption is known to be on for a target; an unreadable keyring counts as off.
    pub open spec fn enabled_for(&self, conn_id: Seq<char>, target: Seq<char>) -> bool {
        match self.keyring {
            None => false,
            Some(keyring) => {
                let context = if channel_target(target) {
                    let base = scoped_seq(self.key_or_empty(conn_id), target);
                    Some(
                        if keyring.faults.rows {
                            base
                        } else {
                            stored(keyring, base)
                        },
                    )
                } else {
                    match self.query_handle(buffer_id_seq(conn_id, target), target) {
                        Ok(Some(handle)) => Some(
                            scoped_seq(self.key_or_empty(conn_id), context_key_seq(target, handle)),
                        ),
                        _ => None,
                    }
                };
                match context {
                    Some(c) => !keyring.faults.configs && keyring.enabled(c),
                    None => false,
                }
            },
        }
    }

    /// Whether encryption may be on for a target: every uncertainty counts as on.
    pub open spec fn possible_for(&self, conn_id: Seq<char>, target: Seq<char>) -> bool {
        match self.keyring {
            None => false,
            Some(keyring) => {
                let former = self.connections@.contains_key(conn_id)
                    && self.connections@[conn_id].network_scope is Some;
                if channel_target(target) {
                    ||| keyring.faults.rows
                    ||| keyring.faults.configs
                    ||| keyring.enabled(
                        stored(keyring, scoped_seq(self.key_or_empty(conn_id), target)),
                    )
                    ||| (former && former_enabled(keyring, self.connections@[conn_id], target))
                } else {
                    match self.query_handle(buffer_id_seq(conn_id, target), target) {
                        Err(_) => true,
                        Ok(None) => keyring.faults.configs || keyring.enabled(target),
                        Ok(Some(handle)) => {
                            let wire = context_key_seq(target, handle);
                            ||| keyring.faults.configs
                            ||| keyring.enabled(scoped_seq(self.key_or_empty(conn_id), wire))
                            ||| keyring.enabled(wire)
                            ||| (former && keyring.faults.rows)
                            ||| (former && former_enabled(keyring, self.connections@[conn_id], wire))
                        },
                    }
                }
            },
        }
    }

    /// The name of a connection's network, empty where there is no such connection.
    fn network_key_or_empty(&self, conn_id: &str) -> (r: String)
        ensures
            r@ == self.key_or_empty(conn_id@),
    {
        match self.connections.get(conn_id) {
            Some(connection) => connection.network_key().clone(),
            None => String::new(),
        }
    }

    /// Tells whether a target names a conversation with encryption on: an advice, which an
    /// unreadable keyring turns into no.
    pub fn e2e_enabled_for_target(&self, conn_id: &str, target: &str) -> (r: bool)
        ensures
            r == self.enabled_for(conn_id@, target@),
    {
        let keyring = match &self.keyring {
            None => {
                return false;
            },
            Some(keyring) => keyring,
        };
        let network = self.network_key_or_empty(conn_id);
        let context = if is_channel_target(target) {
            let base = scoped_context(network.as_str(), target);
            match keyring.canonical_channel_context(base.as_str()) {
                Ok(Some(c)) => c,
                _ => base,
            }
        } else {
            let buffer_id = make_buffer_id(conn_id, target);
            match self.resolve_query_peer_handle(buffer_id.as_str(), target) {
                Ok(Some(handle)) => {
                    let wire = context_key(target, handle.as_str());
                    scoped_context(network.as_str(), wire.as_str())
                },
                _ => {
                    return false;
                },
            }
        };
        match keyring.get_channel_config(context.as_str()) {
            Ok(Some(true)) => true,
            _ => false,
        }
    }

    /// Tells whether encryption may be on for a target: true unless it is definitely ruled out.
    pub fn e2e_possible_for_target(&self, conn_id: &str, target: &str) -> (r: bool)
        ensures
            r == self.possible_for(conn_id@, target@),
    {
        let keyring = match &self.keyring {
            None => {
                return false;
            },
            Some(keyring) => keyring,
        };
        let network = self.network_key_or_empty(conn_id);
        if is_channel_target(target) {
            let base = scoped_context(network.as_str(), target);
            let context = match keyring.canonical_channel_context(base.as_str()) {
                Ok(Some(c)) => c,
                Ok(None) => base,
                Err(_) => {
                    return true;
                },
            };
            match keyring.get_channel_config(context.as_str()) {
                Ok(Some(true)) => {
                    return true;
                },
                Ok(_) => {},
                Err(_) => {
                    return true;
                },
            }
            return self.was_enabled(keyring, conn_id, target);
        }
        let buffer_id = make_buffer_id(conn_id, target);
        let handle = match self.resolve_query_peer_handle(buffer_id.as_str(), target) {
            Ok(handle) => handle,
            Err(_) => {
                return true;
            },
        };
        match handle {
            None => match keyring.get_channel_config(target) {
                Ok(Some(true)) => true,
                Ok(_) => false,
                Err(_) => true,
            },
            Some(handle) => {
                let wire = context_key(target, handle.as_str());
                let scoped = scoped_context(network.as_str(), wire.as_str());
                match keyring.get_channel_config(scoped.as_str()) {
                    Ok(Some(true)) => {
                        return true;
                    },
                    Ok(_) => {},
                    Err(_) => {
                        return true;
                    },
                }
                match keyring.get_channel_config(wire.as_str()) {
                    Ok(Some(true)) => {
                        return true;
                    },
                    Ok(_) => {},
                    Err(_) => {
                        return true;
                    },
                }
                self.was_enabled(keyring, conn_id, wire.as_str())
            },
        }
    }

    /// Tells whether encryption was on, or may have been, under a former name of the network.
    fn was_enabled(&self, keyring: &Keyring, conn_id: &str, wire: &str) -> (r: bool)
        requires
            !keyring.faults.configs,
        ensures
            r == (self.connections@.contains_key(conn_id@)
                && self.connections@[conn_id@].network_scope is Some && (keyring.faults.rows
                || former_enabled(*keyring, self.connections@[conn_id@], wire@))),
    {
        match self.connections.get(conn_id) {
            None => false,
            Some(connection) => {
                if connection.network_scope.is_none() {
                    return false;
                }
                proof {
                    reveal_strlit("");
                    assert(""@ =~= Seq::<char>::empty());
                }
                let origin = network_scope(connection.id.as_str(), &connection.origin_config, "");
                let a = stored_enabled(keyring, connection.label.as_str(), wire);
                let b = stored_enabled(keyring, origin.as_str(), wire);
                match (a, b) {
                    (Ok(x), Ok(y)) => x || y,
                    _ => true,
                }
            },
        }
    }

    /// Notes in a channel that a bot command went out as plain text although encryption is on.
    pub fn warn_e2e_bot_bypass(&mut self, buffer_id: &str, buffer_name: &str, now_ms: i64)
        ensures
            bypass_noted(*old(self), *final(self), buffer_id@, buffer_name@, now_ms),
    {
        let conn_id = match self.connection_of(buffer_id) {
            Some(conn_id) => conn_id,
            None => {
                return;
            },
        };
        if !self.e2e_enabled_for_target(conn_id.as_str(), buffer_name) {
            return;
        }
        let text = concat3(
            "[E2E] bot-style message to ",
            buffer_name,
            " sent in CLEARTEXT \u{2014} channel lines starting with '.' or '!' bypass encryption for bots",
        );
        self.add_event(buffer_id, text, Some("e2e_warning".to_string()), now_ms);
    }

    /// Queues the notices of a rotation for the peers that can be addressed.
    fn queue_rekeys(
        &mut self,
        rekeys: Vec<RekeySend>,
        buffer_id: &str,
        buffer_name: &str,
        buffer_type: BufferType,
        context: &str,
    )
        ensures
            rekeys_queued(
                *old(self),
                *final(self),
                rekeys@,
                buffer_id@,
                buffer_name@,
                buffer_type,
                context@,
            ),
    {
        let ghost before = *self;
        match self.connection_of(buffer_id) {
            None => {
                assert(send_views(self.pending_e2e_sends@) + Seq::<PendingE2eSendV>::empty()
                    =~= send_views(before.pending_e2e_sends@));
            },
            Some(conn_id) => {
                let mut i: usize = 0;
                let ghost notices = |n: int|
                    rekey_notices(
                        rekeys@.take(n),
                        conn_id@,
                        buffer_at(before, buffer_id@),
                        buffer_type,
                        buffer_name@,
                        context@,
                    );
                assert(rekeys@.take(0) =~= Seq::<RekeySend>::empty());
                assert(send_views(self.pending_e2e_sends@) =~= send_views(before.pending_e2e_sends@)
                    + notices(0));
                while i < rekeys.len()
                    invariant
                        i <= rekeys@.len(),
                        *self == (AppState { pending_e2e_sends: self.pending_e2e_sends, ..before }),
                        forall|n: int|
                            #[trigger] notices(n) == rekey_notices(
                                rekeys@.take(n),
                                conn_id@,
                                buffer_at(before, buffer_id@),
                                buffer_type,
                                buffer_name@,
                                context@,
                            ),
                        send_views(self.pending_e2e_sends@) == send_views(before.pending_e2e_sends@)
                            + notices(i as int),
                    decreases rekeys@.len() - i,
                {
                    let buffer = self.buffers.get(buffer_id);
                    let nick = rekey_notice_target(
                        buffer,
                        buffer_type,
                        buffer_name,
                        context,
                        rekeys[i].target_handle.as_str(),
                    );
                    proof {
                        assert(rekeys@.take(i + 1).drop_last() =~= rekeys@.take(i as int));
                        assert(rekeys@.take(i + 1).last() == rekeys@[i as int]);
                    }
                    let ghost sends = send_views(self.pending_e2e_sends@);
                    match nick {
                        None => {
                            assert(notices(i + 1) == notices(i as int));
                        },
                        Some(nick) => {
                            let send = PendingE2eSend {
                                connection_id: conn_id.clone(),
                                target: nick,
                                notice_text: rekeys[i].notice_text.clone(),
                            };
                            let ghost added = send@;
                            self.pending_e2e_sends.push(send);
                            assert(send_views(self.pending_e2e_sends@) =~= sends.push(added));
                            assert(notices(i + 1) == notices(i as int).push(added));
                            assert(sends.push(added) =~= send_views(before.pending_e2e_sends@) + notices(
                                i + 1,
                            ));
                        },
                    }
                    i = i + 1;
                }
                assert(rekeys@.take(rekeys@.len() as int) =~= rekeys@);
            },
        }
    }

    /// Runs the policy and says what goes out, with the text to show locally. `sealed` is what the
    /// cipher made of the text under the context that [`AppState::e2e_gate`] gives; it counts only
    /// where the policy encrypts.
    pub fn e2e_encrypt_or_passthrough(
        &mut self,
        buffer_id: &str,
        buffer_name: &str,
        buffer_type: BufferType,
        text: &str,
        captured_peer_handle: Option<&str>,
        sealed: Sealed,
        now_ms: i64,
    ) -> (r: Result<(Vec<String>, String), E2eRefusal>)
        ensures
            gate_applied(
                *old(self),
                *final(self),
                buffer_id@,
                buffer_name@,
                buffer_type,
                text@,
                (match captured_peer_handle {
                    Some(h) => Some(h@),
                    None => None,
                }),
                sealed,
                now_ms,
                r,
            ),
    {
        let gate = self.e2e_gate(buffer_id, buffer_name, buffer_type, text, captured_peer_handle);
        match gate {
            Gate::Refuse(reason) => Err(reason),
            Gate::Plain => Ok((split_irc_message(text, MESSAGE_MAX_BYTES), text.to_string())),
            Gate::BotBypass => {
                self.warn_e2e_bot_bypass(buffer_id, buffer_name, now_ms);
                Ok((split_irc_message(text, MESSAGE_MAX_BYTES), text.to_string()))
            },
            Gate::Encrypt(context) => {
                let Sealed { lines, rekeys } = sealed;
                self.queue_rekeys(rekeys, buffer_id, buffer_name, buffer_type, context.as_str());
                match lines {
                    Ok(lines) => Ok((lines, text.to_string())),
                    Err(_) => Err(E2eRefusal::EncryptFailed),
                }
            },
        }
    }

    /// Runs the policy for a send by target name, whether or not a buffer is open for it.
    pub fn e2e_send_plan_for_target(
        &mut self,
        conn_id: &str,
        target: &str,
        text: &str,
        sealed: Sealed,
        now_ms: i64,
    ) -> (r: Result<E2eSendPlan, E2eRefusal>)
        ensures
            planned(*old(self), *final(self), conn_id@, target@, text@, sealed, now_ms, r),
    {
        let buffer_type = if is_channel_target(target) {
            BufferType::Channel
        } else {
            BufferType::Query
        };
        let buffer_id = make_buffer_id(conn_id, target);
        match self.e2e_encrypt_or_passthrough(
            buffer_id.as_str(),
            target,
            buffer_type,
            text,
            None,
            sealed,
            now_ms,
        ) {
            Err(reason) => Err(reason),
            Ok((wire_lines, _)) => {
                let encrypted = wire_lines.len() > 0 && starts_with(wire_lines[0].as_str(), CIPHER_MARK);
                Ok(E2eSendPlan { wire_lines, encrypted })
            },
        }
    }
}

/// The policy's decision about a message is carried out on the state.
pub open spec fn gate_applied(
    before: AppState,
    after: AppState,
    buffer_id: Seq<char>,
    name: Seq<char>,
    buffer_type: BufferType,
    text: Seq<char>,
    captured: Option<Seq<char>>,
    sealed: Sealed,
    now_ms: i64,
    r: Result<(Vec<String>, String), E2eRefusal>,
) -> bool {
    match before.gate(buffer_id, name, buffer_type, text, captured) {
        GateV::Refuse(reason) => after == before && r == Err::<(Vec<String>, String), E2eRefusal>(
            reason,
        ),
        GateV::Plain => after == before && passed_plain(r, text),
        GateV::BotBypass => bypass_noted(before, after, buffer_id, name, now_ms) && passed_plain(r, text),
        GateV::Encrypt(context) => rekeys_queued(
            before,
            after,
            sealed.rekeys@,
            buffer_id,
            name,
            buffer_type,
            context,
        ) && passed_sealed(r, sealed, text),
    }
}

/// The first of the lines is ciphertext.
pub open spec fn is_cipher(lines: Seq<Seq<char>>) -> bool {
    lines.len() > 0 && CIPHER_MARK@.is_prefix_of(lines[0])
}

/// The plan for a send by target name follows the policy.
pub open spec fn planned(
    before: AppState,
    after: AppState,
    conn_id: Seq<char>,
    target: Seq<char>,
    text: Seq<char>,
    sealed: Sealed,
    now_ms: i64,
    r: Result<E2eSendPlan, E2eRefusal>,
) -> bool {
    let id = buffer_id_seq(conn_id, target);
    match before.gate(id, target, target_type(target), text, None) {
        GateV::Refuse(reason) => after == before && r == Err::<E2eSendPlan, E2eRefusal>(reason),
        GateV::Plain => after == before && plan_is(r, message_lines(text, MESSAGE_MAX_BYTES as nat)),
        GateV::BotBypass => bypass_noted(before, after, id, target, now_ms) && plan_is(
            r,
            message_lines(text, MESSAGE_MAX_BYTES as nat),
        ),
        GateV::Encrypt(context) => {
            &&& rekeys_queued(
                before,
                after,
                sealed.rekeys@,
                id,
                target,
                target_type(target),
                context,
            )
            &&& match sealed.lines {
                Ok(lines) => plan_is(r, texts(lines@)),
                Err(_) => r == Err::<E2eSendPlan, E2eRefusal>(E2eRefusal::EncryptFailed),
            }
        },
    }
}

/// The plan sends exactly these lines.
pub open spec fn plan_is(r: Result<E2eSendPlan, E2eRefusal>, lines: Seq<Seq<char>>) -> bool {
    match r {
        Ok(plan) => texts(plan.wire_lines@) == lines && plan.encrypted == is_cipher(lines),
        Err(_) => false,
    }
}

/// The text goes out as it is, cut to size.
pub open spec fn passed_plain(r: Result<(Vec<String>, String), E2eRefusal>, text: Seq<char>) -> bool {
    match r {
        Ok(out) => texts(out.0@) == message_lines(text, MESSAGE_MAX_BYTES as nat) && out.1@ == text,
        Err(_) => false,
    }
}

/// What the cipher made goes out, and a failure of the cipher is a refusal.
pub open spec fn passed_sealed(
    r: Result<(Vec<String>, String), E2eRefusal>,
    sealed: Sealed,
    text: Seq<char>,
) -> bool {
    match (sealed.lines, r) {
        (Ok(lines), Ok(out)) => out.0 == lines && out.1@ == text,
        (Err(_), Err(reason)) => reason == E2eRefusal::EncryptFailed,
        _ => false,
    }
}

/// The buffer of a target on a connection, where it is open, belongs to that connection.
pub open spec fn addressed(state: AppState, conn_id: Seq<char>, target: Seq<char>) -> bool {
    &&& state.connections@.contains_key(conn_id)
    &&& state.conn_of(buffer_id_seq(conn_id, target)) == Some(conn_id)
}

/// Where encryption is ruled out for a target on a known connection, the policy lets its messages
/// pass: nothing that was shown to an outside service beforehand is refused afterwards. What is sent is
/// the text, cut to size, and it is told as plain unless it looks like ciphertext itself.
pub proof fn ruled_out_means_plain(
    before: AppState,
    after: AppState,
    conn_id: Seq<char>,
    target: Seq<char>,
    text: Seq<char>,
    sealed: Sealed,
    now_ms: i64,
    r: Result<E2eSendPlan, E2eRefusal>,
)
    requires
        addressed(before, conn_id, target),
        !before.possible_for(conn_id, target),
        planned(before, after, conn_id, target, text, sealed, now_ms, r),
    ensures
        ({
            let g = before.gate(
                buffer_id_seq(conn_id, target),
                target,
                target_type(target),
                text,
                None,
            );
            g is Plain || g is BotBypass
        }),
        r matches Ok(plan) && texts(plan.wire_lines@) == message_lines(text, MESSAGE_MAX_BYTES as nat)
            && plan.encrypted == is_cipher(message_lines(text, MESSAGE_MAX_BYTES as nat)),
{
}

/// A conversation on a known connection with encryption on is never sent as plain text, except for
/// a one-line bot command in a channel.
pub proof fn enabled_never_goes_plain(
    state: AppState,
    conn_id: Seq<char>,
    target: Seq<char>,
    text: Seq<char>,
)
    requires
        addressed(state, conn_id, target),
        state.enabled_for(conn_id, target),
    ensures
        state.possible_for(conn_id, target),
        ({
            let g = state.gate(
                buffer_id_seq(conn_id, target),
                target,
                target_type(target),
                text,
                None,
            );
            &&& g !is Plain
            &&& g is BotBypass <==> channel_target(target) && bot_line(text)
        }),
{
}

/// Contexts of one network that differ only in the case of the channel are the same but for case.
proof fn lemma_scoped_case(network: Seq<char>, a: Seq<char>, b: Seq<char>)
    requires
        lower_seq(a) == lower_seq(b),
    ensures
        lower_seq(scoped_seq(network, a)) == lower_seq(scoped_seq(network, b)),
{
    let x = scoped_seq(network, a);
    let y = scoped_seq(network, b);
    assert(a.len() == lower_seq(a).len() && b.len() == lower_seq(b).len());
    assert forall|i: int| 0 <= i < x.len() implies lower_seq(x)[i] == lower_seq(y)[i] by {
        assert(lower_seq(x)[i] == lower_char(x[i]) && lower_seq(y)[i] == lower_char(y[i]));
        let j = i - network.len() - 1;
        if j >= 0 {
            assert(x[i] == a[j] && y[i] == b[j]);
            assert(lower_seq(a)[j] == lower_char(a[j]) && lower_seq(b)[j] == lower_char(b[j]));
        }
    }
    assert(lower_seq(x) =~= lower_seq(y));
}

/// A context is its network and the conversation again.
proof fn lemma_scope_parts(network: Seq<char>, wire: Seq<char>)
    requires
        !wire.contains(SCOPE_MARK),
    ensures
        wire_seq(scoped_seq(network, wire)) == wire,
        scope_part(scoped_seq(network, wire)) == network + seq![SCOPE_MARK],
{
    let s = scoped_seq(network, wire);
    let n = network.len() as int;
    assert(s[n] == SCOPE_MARK);
    assert forall|i: int| n < i < s.len() implies s[i] != SCOPE_MARK by {
        assert(s[i] == wire[i - n - 1]);
        assert(wire.contains(wire[i - n - 1]));
    }
    s.index_of_last_ensures(SCOPE_MARK);
    assert(s.contains(SCOPE_MARK));
    assert(s.index_of_last(SCOPE_MARK) == Some(n));
    assert(s.skip(n + 1) =~= wire);
    assert(s.take(n).push(SCOPE_MARK) =~= network + seq![SCOPE_MARK]);
}

/// Where encryption is on for a channel under one spelling, it is found under every other.
proof fn lemma_on_under_every_spelling(keyring: Keyring, network: Seq<char>, name: Seq<char>, other: Seq<char>)
    requires
        keyring.configs.ordered(),
        lower_seq(name) == lower_seq(other),
        !name.contains(SCOPE_MARK),
        !other.contains(SCOPE_MARK),
        keyring.enabled(stored(keyring, scoped_seq(network, name))),
    ensures
        keyring.enabled(stored(keyring, scoped_seq(network, other))),
{
    let context = scoped_seq(network, name);
    let wanted = scoped_seq(network, other);
    let keys = keyring.configs.keys();
    lemma_scope_parts(network, name);
    lemma_scope_parts(network, other);
    lemma_scoped_case(network, name, other);
    assert(network + seq![SCOPE_MARK] + name =~= context);
    if !keyring.enabled(wanted) {
        let i = if keyring.enabled(context) {
            if keyring.configs@.contains_key(context) {
                keys.index_of(context)
            } else {
                keys.index_of(name)
            }
        } else {
            choose|i: int| keyring.first_on(context, i)
        };
        assert(0 <= i < keys.len());
        assert(lower_seq(context).len() == context.len() && lower_seq(wanted).len() == wanted.len());
        assert(lower_seq(name).len() == name.len());
        assert(keyring.turns_on(wanted, i));
        let first = lemma_first_on(keyring, wanted, i);
        assert(keyring.first_on(wanted, first));
    }
}

/// Where a row turns encryption on, there is a first.
proof fn lemma_first_on(keyring: Keyring, context: Seq<char>, i: int) -> (r: int)
    requires
        keyring.turns_on(context, i),
    ensures
        keyring.first_on(context, r),
    decreases i,
{
    if forall|j: int| 0 <= j < i ==> !keyring.turns_on(context, j) {
        i
    } else {
        let j = choose|j: int| 0 <= j < i && keyring.turns_on(context, j);
        lemma_first_on(keyring, context, j)
    }
}

/// Channel names do not depend on case: where encryption is on for a channel of a network under one
/// spelling of the name, what is sent there under any other goes out as ciphertext, too, except for a
/// one-line bot command.
pub proof fn channel_case_does_not_matter(
    before: AppState,
    after: AppState,
    conn_id: Seq<char>,
    name: Seq<char>,
    target: Seq<char>,
    text: Seq<char>,
    sealed: Sealed,
    now_ms: i64,
    r: Result<E2eSendPlan, E2eRefusal>,
)
    requires
        planned(before, after, conn_id, target, text, sealed, now_ms, r),
        addressed(before, conn_id, target),
        channel_target(target),
        lower_seq(name) == lower_seq(target),
        before.keyring matches Some(keyring) && keyring.configs.ordered() && !keyring.faults.rows
            && !keyring.faults.configs,
        before.enabled_for(conn_id, name),
        !name.contains(SCOPE_MARK) && !target.contains(SCOPE_MARK),
        !bot_line(text),
        sealed.lines matches Ok(lines) ==> lines@.len() > 0 && forall|i: int|
            0 <= i < lines@.len() ==> CIPHER_MARK@.is_prefix_of(#[trigger] texts(lines@)[i]),
    ensures
        r matches Ok(plan) ==> plan.encrypted && forall|i: int|
            0 <= i < plan.wire_lines@.len() ==> CIPHER_MARK@.is_prefix_of(
                #[trigger] texts(plan.wire_lines@)[i],
            ),
        r is Ok <==> sealed.lines is Ok,
{
    let keyring = before.keyring->0;
    let key = before.connections@[conn_id].key();
    assert(channel_target(name)) by {
        assert(lower_seq(name).len() == name.len() && lower_seq(target).len() == target.len());
        assert(lower_seq(name)[0] == lower_char(name[0]) && lower_seq(target)[0] == lower_char(target[0]));
    }
    lemma_on_under_every_spelling(keyring, key, name, target);
}

/// Whatever the target, a plan counts as encrypted exactly where its first line is ciphertext.
pub proof fn encrypted_plans_are_ciphertext(
    before: AppState,
    after: AppState,
    conn_id: Seq<char>,
    target: Seq<char>,
    text: Seq<char>,
    sealed: Sealed,
    now_ms: i64,
    plan: E2eSendPlan,
)
    requires
        planned(before, after, conn_id, target, text, sealed, now_ms, Ok(plan)),
    ensures
        plan.encrypted <==> plan.wire_lines@.len() > 0 && CIPHER_MARK@.is_prefix_of(
            texts(plan.wire_lines@)[0],
        ),
{
}

/// A keyring that cannot be read never lets a message of a channel or a query through as plain
/// text, except for a one-line bot command in a channel.
pub proof fn unreadable_keyring_refuses(
    state: AppState,
    buffer_id: Seq<char>,
    name: Seq<char>,
    buffer_type: BufferType,
    text: Seq<char>,
    captured: Option<Seq<char>>,
)
    requires
        state.keyring matches Some(keyring) && keyring.faults.configs,
        buffer_type == BufferType::Channel || buffer_type == BufferType::Query,
        !(buffer_type == BufferType::Channel && bot_line(text)),
    ensures
        state.gate(buffer_id, name, buffer_type, text, captured) == GateV::Refuse(
            E2eRefusal::KeyringRead,
        ),
{
}

/// The lines of different refusals differ.
pub proof fn refusals_are_distinct(a: E2eRefusal, b: E2eRefusal)
    requires
        a != b,
    ensures
        refusal_line(a) != refusal_line(b),
{
    reveal_strlit("cannot encrypt PM without peer handle \u{2014} wait for a message from them first");
    reveal_strlit("cannot encrypt \u{2014} keyring read failed; message NOT sent (E2E stays on)");
    reveal_strlit(
        "encryption failed \u{2014} message NOT sent as plaintext (use /e2e off to send cleartext)",
    );
    reveal_strlit(
        "bouncer network changed \u{2014} message NOT sent (enable /e2e again for this network)",
    );
    let head = C_ERR@ + "[E2E] "@;
    let la = refusal_line(a);
    let lb = refusal_line(b);
    assert(refusal_body(a).len() != refusal_body(b).len() || refusal_body(a)[0] != refusal_body(b)[0]);
    if refusal_body(a).len() == refusal_body(b).len() {
        assert(la[head.len() as int] == refusal_body(a)[0]);
        assert(lb[head.len() as int] == refusal_body(b)[0]);
    } else {
        assert(la.len() != lb.len());
    }
}

/// No row of a keyring that is on is about a conversation, under any network and in any case.
pub open spec fn nothing_on(keyring: Keyring, wire: Seq<char>) -> bool {
    forall|row: Seq<char>| #[trigger]
        keyring.configs@.contains_key(row) && keyring.configs@[row] ==> lower_seq(wire_seq(row)) != lower_seq(
            wire_seq(wire),
        )
}

/// The conversation of a context is what stands behind its last mark.
proof fn lemma_wire_behind(s: Seq<char>, n: int)
    requires
        0 <= n < s.len(),
        s[n] == SCOPE_MARK,
    ensures
        wire_seq(s) == wire_seq(s.skip(n + 1)),
{
    let rest = s.skip(n + 1);
    s.index_of_last_ensures(SCOPE_MARK);
    rest.index_of_last_ensures(SCOPE_MARK);
    assert(s.contains(SCOPE_MARK));
    let i = s.index_of_last(SCOPE_MARK)->0;
    if rest.contains(SCOPE_MARK) {
        let j = rest.index_of_last(SCOPE_MARK)->0;
        assert(s[n + 1 + j] == SCOPE_MARK);
        if i > n {
            assert(rest[i - n - 1] == SCOPE_MARK);
        }
        assert(i == n + 1 + j);
        assert(s.skip(i + 1) =~= rest.skip(j + 1));
    } else {
        if i > n {
            assert(rest[i - n - 1] == SCOPE_MARK);
        }
        assert(i == n);
        assert(s.skip(i + 1) =~= rest);
    }
}

/// The conversation of a context has no mark in it.
proof fn lemma_wire_unmarked(s: Seq<char>)
    ensures
        !wire_seq(s).contains(SCOPE_MARK),
        wire_seq(wire_seq(s)) == wire_seq(s),
{
    s.index_of_last_ensures(SCOPE_MARK);
    let w = wire_seq(s);
    if s.contains(SCOPE_MARK) {
        let i = s.index_of_last(SCOPE_MARK)->0;
        if w.contains(SCOPE_MARK) {
            let j = w.index_of(SCOPE_MARK);
            assert(s[i + 1 + j] == SCOPE_MARK);
        }
    }
    w.index_of_last_ensures(SCOPE_MARK);
}

/// Case does not matter for where the last mark stands.
proof fn lemma_wire_case(a: Seq<char>, b: Seq<char>)
    requires
        lower_seq(a) == lower_seq(b),
    ensures
        lower_seq(wire_seq(a)) == lower_seq(wire_seq(b)),
{
    assert(lower_seq(a).len() == a.len() && lower_seq(b).len() == b.len());
    assert forall|i: int| 0 <= i < a.len() implies (a[i] == SCOPE_MARK <==> b[i] == SCOPE_MARK) && lower_char(
        #[trigger] a[i],
    ) == lower_char(b[i]) by {
        assert(lower_seq(a)[i] == lower_char(a[i]) && lower_seq(b)[i] == lower_char(b[i]));
    }
    a.index_of_last_ensures(SCOPE_MARK);
    b.index_of_last_ensures(SCOPE_MARK);
    if a.contains(SCOPE_MARK) {
        let i = a.index_of_last(SCOPE_MARK)->0;
        assert(b[i] == SCOPE_MARK);
        let j = b.index_of_last(SCOPE_MARK)->0;
        assert(a[j] == SCOPE_MARK);
        assert(i == j);
        assert(lower_seq(a.skip(i + 1)) =~= lower_seq(b.skip(i + 1))) by {
            assert forall|k: int| 0 <= k < a.len() - i - 1 implies #[trigger] lower_seq(a.skip(i + 1))[k]
                == lower_seq(b.skip(i + 1))[k] by {
                assert(lower_char(a[i + 1 + k]) == lower_char(b[i + 1 + k]));
            }
        }
    } else if b.contains(SCOPE_MARK) {
        let j = b.index_of_last(SCOPE_MARK)->0;
        assert(a[j] == SCOPE_MARK);
    }
}

/// Where nothing is on for a conversation, no context of it is on.
proof fn lemma_off(keyring: Keyring, wire: Seq<char>, context: Seq<char>)
    requires
        nothing_on(keyring, wire),
        lower_seq(wire_seq(context)) == lower_seq(wire_seq(wire)),
    ensures
        !keyring.enabled(context),
{
    lemma_wire_unmarked(context);
    if keyring.configs@.contains_key(context) && keyring.configs@[context] {
        assert(false);
    }
    let bare = wire_seq(context);
    if keyring.configs@.contains_key(bare) && keyring.configs@[bare] {
        assert(false);
    }
}

/// Where nothing is on for a conversation, it is not found to be on under any spelling.
proof fn lemma_stored_off(keyring: Keyring, wire: Seq<char>, context: Seq<char>)
    requires
        nothing_on(keyring, wire),
        lower_seq(wire_seq(context)) == lower_seq(wire_seq(wire)),
    ensures
        !keyring.enabled(stored(keyring, context)),
        !keyring.enabled(context),
{
    lemma_off(keyring, wire, context);
    if exists|i: int| keyring.first_on(context, i) {
        let i = choose|i: int| keyring.first_on(context, i);
        let row = keyring.configs.keys()[i];
        if lower_seq(row) == lower_seq(context) {
            lemma_wire_case(row, context);
            lemma_off(keyring, wire, row);
        } else {
            let c = scope_part(context) + row;
            lemma_wire_unmarked(context);
            lemma_wire_case(row, wire_seq(context));
            context.index_of_last_ensures(SCOPE_MARK);
            if context.contains(SCOPE_MARK) {
                let n = context.index_of_last(SCOPE_MARK)->0;
                assert(c[n] == SCOPE_MARK);
                lemma_wire_behind(c, n);
                assert(c.skip(n + 1) =~= row);
            } else {
                assert(c =~= row);
            }
            lemma_off(keyring, wire, c);
        }
    }
}

/// Where nothing is on for a conversation, its context on a network is off.
proof fn lemma_scoped_off(keyring: Keyring, network: Seq<char>, wire: Seq<char>)
    requires
        nothing_on(keyring, wire),
    ensures
        !keyring.enabled(scoped_seq(network, wire)),
        !keyring.enabled(stored(keyring, scoped_seq(network, wire))),
{
    let context = scoped_seq(network, wire);
    let n = network.len() as int;
    assert(context[n] == SCOPE_MARK);
    lemma_wire_behind(context, n);
    assert(context.skip(n + 1) =~= wire);
    lemma_stored_off(keyring, wire, context);
}

/// Where nothing is on for a conversation, it was not on under a name that the network had before.
proof fn lemma_former_off(keyring: Keyring, connection: Connection, wire: Seq<char>)
    requires
        nothing_on(keyring, wire),
    ensures
        !former_enabled(keyring, connection, wire),
{
    lemma_scoped_off(keyring, connection.label@, wire);
    lemma_scoped_off(keyring, scope_seq(connection.id@, &connection.origin_config, Seq::empty()), wire);
}

/// A keyring that can be read has nothing on for a conversation: neither for a channel or a nick by its
/// name, nor for the handle of a peer.
pub open spec fn all_off(
    state: AppState,
    buffer_id: Seq<char>,
    name: Seq<char>,
    captured: Option<Seq<char>>,
) -> bool {
    state.keyring matches Some(keyring) ==> {
        &&& !keyring.faults.handles && !keyring.faults.rows && !keyring.faults.configs
        &&& nothing_on(keyring, name)
        &&& (state.query_handle(buffer_id, name) matches Ok(Some(h)) ==> nothing_on(keyring, seq!['@'] + h))
        &&& (captured matches Some(h) ==> nothing_on(keyring, seq!['@'] + h))
    }
}

/// Where nothing is on, the policy lets a message of a channel or a query pass.
pub proof fn lemma_all_off(
    state: AppState,
    buffer_id: Seq<char>,
    name: Seq<char>,
    buffer_type: BufferType,
    text: Seq<char>,
    captured: Option<Seq<char>>,
)
    requires
        all_off(state, buffer_id, name, captured),
    ensures
        ({
            let g = state.gate(buffer_id, name, buffer_type, text, captured);
            g == (if buffer_type == BufferType::Channel && bot_line(text) {
                GateV::BotBypass
            } else {
                GateV::Plain
            })
        }),
{
    match state.keyring {
        None => {},
        Some(keyring) => {
            let handle = match (state.query_handle(buffer_id, name), captured) {
                (Ok(Some(live)), _) => Some(live),
                (_, other) => other,
            };
            let wire = if buffer_type == BufferType::Channel {
                name
            } else {
                match handle {
                    Some(h) => context_key_seq(name, h),
                    None => name,
                }
            };
            assert(nothing_on(keyring, wire));
            lemma_off(keyring, name, name);
            lemma_stored_off(keyring, wire, wire);
            match state.connection_behind(buffer_id) {
                None => {},
                Some(connection) => {
                    lemma_scoped_off(keyring, connection.key(), wire);
                    lemma_former_off(keyring, connection, wire);
                },
            }
        },
    }
}

/// A conversation that nothing was turned on for goes out as plain text. Where the keyring can be read and
/// no row of it that is on is about a target, neither by name nor by the handle that is known of it,
/// encryption is neither on nor possible for it; what is sent there says the text from its first character
/// to its last, as it is where it is one line that fits; and nothing is noted but a bot command in a channel.
pub proof fn nothing_on_means_plain(
    before: AppState,
    after: AppState,
    conn_id: Seq<char>,
    target: Seq<char>,
    text: Seq<char>,
    sealed: Sealed,
    now_ms: i64,
    r: Result<E2eSendPlan, E2eRefusal>,
)
    requires
        planned(before, after, conn_id, target, text, sealed, now_ms, r),
        all_off(before, buffer_id_seq(conn_id, target), target, None),
    ensures
        !before.possible_for(conn_id, target),
        !before.enabled_for(conn_id, target),
        r is Ok,
        r matches Ok(plan) ==> {
            &&& glued(texts(plan.wire_lines@)) == text.filter(|c: char| c != '\n')
            &&& plan.encrypted ==> CIPHER_MARK@.is_prefix_of(texts(plan.wire_lines@)[0])
            &&& !text.contains('\n') && 0 < text.len() && text_bytes(text) <= MESSAGE_MAX_BYTES ==> texts(
                plan.wire_lines@,
            ) == seq![text]
        },
        !(channel_target(target) && bot_line(text)) ==> after == before,
{
    let id = buffer_id_seq(conn_id, target);
    lemma_all_off(before, id, target, target_type(target), text, None);
    messages_keep_the_text(text, MESSAGE_MAX_BYTES as nat);
    if !text.contains('\n') && text_bytes(text) <= MESSAGE_MAX_BYTES {
        short_lines_stay_whole(text, MESSAGE_MAX_BYTES as nat);
    }
    match before.keyring {
        None => {},
        Some(keyring) => {
            let wire = if channel_target(target) {
                target
            } else {
                match before.query_handle(id, target) {
                    Ok(Some(h)) => context_key_seq(target, h),
                    _ => target,
                }
            };
            lemma_off(keyring, target, target);
            lemma_off(keyring, wire, wire);
            lemma_scoped_off(keyring, before.key_or_empty(conn_id), wire);
            if before.connections@.contains_key(conn_id) {
                lemma_former_off(keyring, before.connections@[conn_id], wire);
            }
        },
    }
}

/// The same for what is typed into a buffer: where nothing was turned on for its conversation, the policy
/// lets the text through as it is.
pub proof fn typed_text_passes_where_nothing_is_on(
    before: AppState,
    after: AppState,
    buffer_id: Seq<char>,
    name: Seq<char>,
    buffer_type: BufferType,
    text: Seq<char>,
    captured: Option<Seq<char>>,
    sealed: Sealed,
    now_ms: i64,
    r: Result<(Vec<String>, String), E2eRefusal>,
)
    requires
        gate_applied(before, after, buffer_id, name, buffer_type, text, captured, sealed, now_ms, r),
        all_off(before, buffer_id, name, captured),
    ensures
        r matches Ok(out) && out.1@ == text && glued(texts(out.0@)) == text.filter(|c: char| c != '\n'),
        !(buffer_type == BufferType::Channel && bot_line(text)) ==> {
            &&& after == before
            &&& before.gate(buffer_id, name, buffer_type, text, captured) is Plain
        },
{
    lemma_all_off(before, buffer_id, name, buffer_type, text, captured);
    messages_keep_the_text(text, MESSAGE_MAX_BYTES as nat);
}

/// A row that is on seals its conversation. Where a row of the keyring turns encryption on for a target on
/// its network, a channel by name or a peer by the handle that is known, what is sent there is exactly what
/// the cipher made, but for a one-line bot command in a channel; nothing else goes out, and where the keyring
/// can be read and the cipher did its work, it does go out.
pub proof fn a_row_that_is_on_seals(
    before: AppState,
    after: AppState,
    conn_id: Seq<char>,
    target: Seq<char>,
    text: Seq<char>,
    sealed: Sealed,
    now_ms: i64,
    r: Result<E2eSendPlan, E2eRefusal>,
    keyring: Keyring,
    handle: Seq<char>,
)
    requires
        planned(before, after, conn_id, target, text, sealed, now_ms, r),
        addressed(before, conn_id, target),
        before.keyring == Some(keyring),
        !(channel_target(target) && bot_line(text)),
        !channel_target(target) ==> before.query_handle(buffer_id_seq(conn_id, target), target) == Ok::<
            Option<Seq<char>>,
            ReadFault,
        >(Some(handle)),
        ({
            let wire = if channel_target(target) {
                target
            } else {
                seq!['@'] + handle
            };
            let row = scoped_seq(before.connections@[conn_id].key(), wire);
            keyring.configs@.contains_key(row) && keyring.configs@[row]
        }),
    ensures
        before.possible_for(conn_id, target),
        r matches Ok(plan) ==> (sealed.lines matches Ok(lines) && texts(plan.wire_lines@) == texts(lines@)),
        !keyring.faults.rows && !keyring.faults.configs && sealed.lines is Ok ==> r is Ok,
        sealed.lines is Err ==> r is Err,
{
}

/// A row that is on under a name that the network had before, or one by nick for a peer whose handle is not
/// known, is no licence to send plain text: nothing goes out but what the cipher made.
pub proof fn an_outdated_row_never_goes_plain(
    before: AppState,
    after: AppState,
    conn_id: Seq<char>,
    target: Seq<char>,
    text: Seq<char>,
    sealed: Sealed,
    now_ms: i64,
    r: Result<E2eSendPlan, E2eRefusal>,
    keyring: Keyring,
    wire: Seq<char>,
    row: Seq<char>,
)
    requires
        planned(before, after, conn_id, target, text, sealed, now_ms, r),
        addressed(before, conn_id, target),
        before.keyring == Some(keyring),
        !(channel_target(target) && bot_line(text)),
        keyring.configs@.contains_key(row) && keyring.configs@[row],
        ({
            let c = before.connections@[conn_id];
            let handle = before.query_handle(buffer_id_seq(conn_id, target), target);
            let former = c.network_scope is Some && (row == scoped_seq(c.label@, wire) || row == scoped_seq(
                scope_seq(c.id@, &c.origin_config, Seq::empty()),
                wire,
            ));
            ||| channel_target(target) && wire == target && former
            ||| !channel_target(target) && (handle matches Ok(Some(h)) && wire == seq!['@'] + h) && (former || row
                == wire)
            ||| !channel_target(target) && (handle matches Ok(None)) && row == target
        }),
    ensures
        before.possible_for(conn_id, target),
        r matches Ok(plan) ==> (sealed.lines matches Ok(lines) && texts(plan.wire_lines@) == texts(lines@)),
{
}

/// Members get their keys. In a channel, every new key whose handle is that of a member is queued for a member
/// with that handle, with its own text.
pub proof fn members_get_their_keys(
    rekeys: Seq<RekeySend>,
    conn_id: Seq<char>,
    buffer: Buffer,
    name: Seq<char>,
    context: Seq<char>,
    i: int,
    m: int,
)
    requires
        0 <= i < rekeys.len(),
        0 <= m < buffer.users.keys().len(),
        handle_of(buffer.users@[buffer.users.keys()[m]]) == rekeys[i].target_handle@,
    ensures
        ({
            let list = rekey_notices(rekeys, conn_id, Some(buffer), BufferType::Channel, name, context);
            exists|k: int, j: int|
                0 <= k < list.len() && 0 <= j < buffer.users.keys().len() && (#[trigger] list[k]).notice_text
                    == rekeys[i].notice_text@ && list[k].connection_id == conn_id && list[k].target
                    == buffer.users@[#[trigger] buffer.users.keys()[j]].nick@ && handle_of(
                    buffer.users@[buffer.users.keys()[j]],
                ) == rekeys[i].target_handle@
        }),
    decreases rekeys.len(),
{
    let list = rekey_notices(rekeys, conn_id, Some(buffer), BufferType::Channel, name, context);
    let rest = rekeys.drop_last();
    let init = rekey_notices(rest, conn_id, Some(buffer), BufferType::Channel, name, context);
    if i < rest.len() {
        assert(rest[i] == rekeys[i]);
        members_get_their_keys(rest, conn_id, buffer, name, context, i, m);
        let (k, j) = choose|k: int, j: int|
            0 <= k < init.len() && 0 <= j < buffer.users.keys().len() && (#[trigger] init[k]).notice_text
                == rekeys[i].notice_text@ && init[k].connection_id == conn_id && init[k].target
                == buffer.users@[#[trigger] buffer.users.keys()[j]].nick@ && handle_of(
                buffer.users@[buffer.users.keys()[j]],
            ) == rekeys[i].target_handle@;
        assert(list[k] == init[k]);
        assert(buffer.users.keys()[j] == buffer.users.keys()[j]);
    } else {
        let handle = rekeys[i].target_handle@;
        lemma_first_member(buffer, handle, m);
        let j = choose|j: int| member_with_handle(buffer, handle, j);
        assert(list[list.len() - 1].target == buffer.users@[buffer.users.keys()[j]].nick@);
        assert(list[list.len() - 1].notice_text == rekeys[i].notice_text@);
    }
}

proof fn lemma_first_member(buffer: Buffer, handle: Seq<char>, m: int)
    requires
        0 <= m < buffer.users.keys().len(),
        handle_of(buffer.users@[buffer.users.keys()[m]]) == handle,
    ensures
        exists|i: int| member_with_handle(buffer, handle, i),
    decreases m,
{
    if exists|j: int| 0 <= j < m && handle_of(buffer.users@[#[trigger] buffer.users.keys()[j]]) == handle {
        let j = choose|j: int|
            0 <= j < m && handle_of(buffer.users@[#[trigger] buffer.users.keys()[j]]) == handle;
        lemma_first_member(buffer, handle, j);
    } else {
        assert(member_with_handle(buffer, handle, m));
    }
}

} // verus!
