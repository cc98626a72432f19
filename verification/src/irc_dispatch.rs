//! Handling one live message: what comes before the state takes it up, and what follows.
use vstd::prelude::*;

use crate::app::{handle_took, lemma_took_one, App, Clock, IrcHandle};
use crate::batch::{has_tag, tag_text, tag_value, tagged, IrcMessage, IrcMessageV};
use crate::collections::StrMap;
use crate::irc::{add_event_to_buffer, event_added};
use crate::irc_events::Sessions;
use crate::labels::{finish_labeled_response, labeled_response_buffer, labels_ticked, response_buffer, Labels};
use crate::monitor::{doubled, escape_percent, monitor_observed, observe_monitor};
use crate::presence::presence_observed;
use crate::read_markers::{handle_read_marker, marker_handled, MarkerOutcome};
use crate::server_search::{failure_of, handle_server_search, search_handled};
use crate::state::{buffer_id_seq, event_shown, make_buffer_id, rekeyed, seq_renamed, AppState, Connection};
use crate::text::{
    chars_of, concat, concat3, lower_char, lower_seq, opt_text, same, same_ignoring_case, slice_text, texts,
};
use crate::wire::{command1, untagged, Command, CommandV, TagV};

verus! {

broadcast use vstd::string::group_string_axioms;

/// The second parameter of a reply with this number.
pub open spec fn reply_target(m: CommandV, number: Seq<char>) -> Option<Seq<char>> {
    if m.verb == number && m.params.len() > 1 {
        Some(m.params[1])
    } else {
        None
    }
}

/// The second parameter of a reply with this number.
fn reply_param(m: &IrcMessage, number: &str) -> (r: Option<String>)
    ensures
        opt_text(r) == reply_target(m@.command, number@),
{
    assert(m@.command.params.len() == m.command.params@.len());
    if same(m.command.verb.as_str(), number) && m.command.params.len() > 1 {
        assert(m@.command.params[1] == m.command.params@[1]@);
        Some(m.command.params[1].clone())
    } else {
        None
    }
}

/// What is to be asked once the lists of a channel are complete.
#[derive(Debug)]
pub struct Follow {
    /// The channel whose names were listed.
    pub names_ended: Option<String>,
    /// What a list of users was for.
    pub who_ended: Option<String>,
}

/// A message completes these lists.
pub open spec fn follows(f: Follow, m: CommandV) -> bool {
    &&& opt_text(f.names_ended) == reply_target(m, "366"@)
    &&& opt_text(f.who_ended) == reply_target(m, "315"@)
}

/// What a message completes.
pub fn follow_of(m: &IrcMessage) -> (r: Follow)
    ensures
        follows(r, m@.command),
{
    Follow { names_ended: reply_param(m, "366"), who_ended: reply_param(m, "315") }
}

/// Whether a message changes who is where: the state takes it up even where a script hid it.
pub open spec fn mutating(verb: Seq<char>) -> bool {
    ||| verb == "JOIN"@
    ||| verb == "PART"@
    ||| verb == "QUIT"@
    ||| verb == "KICK"@
    ||| verb == "NICK"@
    ||| verb == "MODE"@
    ||| verb == "TOPIC"@
    ||| verb == "ACCOUNT"@
    ||| verb == "AWAY"@
    ||| verb == "CHGHOST"@
    ||| lower_seq(verb) == lower_seq("SETNAME"@)
}

/// Whether a message changes who is where.
pub fn is_state_mutating(verb: &str) -> (r: bool)
    ensures
        r == mutating(verb@),
{
    same(verb, "JOIN") || same(verb, "PART") || same(verb, "QUIT") || same(verb, "KICK") || same(
        verb,
        "NICK",
    ) || same(verb, "MODE") || same(verb, "TOPIC") || same(verb, "ACCOUNT") || same(verb, "AWAY")
        || same(verb, "CHGHOST") || same_ignoring_case(verb, "SETNAME")
}

/// The text between the marks of a client-to-client request.
pub open spec fn ctcp_body(m: CommandV) -> Option<Seq<char>> {
    if m.verb == "PRIVMSG"@ && m.params.len() > 1 && m.params[1].len() > 2 && m.params[1][0] == '\u{1}'
        && m.params[1].last() == '\u{1}' {
        Some(m.params[1].subrange(1, m.params[1].len() - 1))
    } else {
        None
    }
}

/// The text between the marks of a client-to-client request.
pub fn ctcp_request(m: &IrcMessage) -> (r: Option<String>)
    ensures
        opt_text(r) == ctcp_body(m@.command),
{
    assert(m@.command.params.len() == m.command.params@.len());
    if !same(m.command.verb.as_str(), "PRIVMSG") || m.command.params.len() < 2 {
        return None;
    }
    assert(m@.command.params[1] == m.command.params@[1]@);
    let v = chars_of(m.command.params[1].as_str());
    let n: usize = v.len();
    if n > 2 && v[0] == '\u{1}' && v[n - 1] == '\u{1}' {
        Some(slice_text(&v, 1, n - 1))
    } else {
        None
    }
}

/// Where a direct chat stands.
#[derive(Clone, Copy, Debug, PartialEq, Eq, Structural)]
pub enum DccState {
    WaitingUser,
    Listening,
    Connecting,
    Connected,
}

/// A direct chat.
#[derive(Debug)]
pub struct DccRecord {
    pub nick: String,
    pub conn_id: String,
    pub addr: String,
    pub port: u16,
    pub state: DccState,
    /// By this number the peer answers an offer that it is to listen for.
    pub passive_token: Option<u32>,
}

/// What a peer offers for a direct chat.
#[derive(Debug)]
pub struct DccOffer {
    pub addr: String,
    pub port: u16,
    pub passive_token: Option<u32>,
}

/// A chat is the one that an offer answers.
pub open spec fn answers(records: Map<Seq<char>, DccRecord>, id: Seq<char>, offer: DccOffer) -> bool {
    &&& offer.port > 0
    &&& offer.passive_token is Some
    &&& records.contains_key(id)
    &&& records[id].passive_token == offer.passive_token
}

/// A chat that an offer answers.
fn answered(records: &StrMap<DccRecord>, offer: &DccOffer) -> (r: Option<String>)
    ensures
        match r {
            Some(id) => answers(records@, id@, *offer),
            None => forall|id: Seq<char>| !#[trigger] answers(records@, id, *offer),
        },
{
    if offer.port == 0 {
        return None;
    }
    let token: u32 = match offer.passive_token {
        None => {
            return None;
        },
        Some(token) => token,
    };
    let n: usize = records.len();
    let mut i: usize = 0;
    while i < n
        invariant
            n == records.keys().len(),
            i <= n,
            records.ordered(),
            offer.port > 0,
            offer.passive_token == Some(token),
            forall|j: int| 0 <= j < i ==> !answers(records@, #[trigger] records.keys()[j], *offer),
        decreases n - i,
    {
        let record = records.value_at(i);
        if record.passive_token == Some(token) {
            return Some(records.key_at(i).clone());
        }
        i = i + 1;
    }
    proof {
        assert forall|id: Seq<char>| !#[trigger] answers(records@, id, *offer) by {
            if records@.contains_key(id) {
                let j = records.keys().index_of(id);
                assert(records.keys()[j] == id);
            }
        }
    }
    None
}

/// What is done with a live message.
#[derive(Debug)]
pub enum Dispatch {
    /// A script hid it; only what it completes is followed up.
    Suppressed(Follow),
    /// The peer answered an offer: the chat is connected to where the peer listens.
    Passive(String, Follow),
    /// A peer offers a chat.
    Offer(Follow),
    /// The state takes it up, without a line where a script hid it; then [`after_live_message`] goes on
    /// from what was known before.
    Handle { hide: bool, before: Before },
}

/// What is done with a live message. `suppressed` tells whether a script hid it, `offer` what its
/// request for a direct chat says.
pub open spec fn dispatched(
    r0: Map<Seq<char>, DccRecord>,
    r1: Map<Seq<char>, DccRecord>,
    state: AppState,
    conn: Seq<char>,
    m: CommandV,
    suppressed: bool,
    offer: Option<DccOffer>,
    r: Dispatch,
) -> bool {
    if suppressed && !mutating(m.verb) {
        &&& r1 == r0
        &&& r matches Dispatch::Suppressed(f) && follows(f, m)
    } else {
        match offer {
            Some(offer) if ctcp_body(m) is Some => if exists|id: Seq<char>| #[trigger]
                answers(r0, id, offer) {
                &&& r matches Dispatch::Passive(id, f)
                &&& follows(f, m)
                &&& answers(r0, id@, offer)
                &&& r1 == r0.insert(id@, r1[id@])
                &&& r1[id@] == (DccRecord {
                    addr: r1[id@].addr,
                    port: offer.port,
                    state: DccState::Connecting,
                    ..r0[id@]
                })
                &&& r1[id@].addr@ == offer.addr@
            } else {
                &&& r1 == r0
                &&& r matches Dispatch::Offer(f) && follows(f, m)
            },
            _ => {
                &&& r1 == r0
                &&& r matches Dispatch::Handle { hide, before } && hide == suppressed && known_before(
                    before,
                    state,
                    conn,
                )
            },
        }
    }
}

/// Decides what is done with a live message.
pub fn decide_dispatch(
    records: &mut StrMap<DccRecord>,
    state: &AppState,
    conn: &str,
    m: &IrcMessage,
    suppressed: bool,
    offer: Option<DccOffer>,
) -> (r: Dispatch)
    ensures
        dispatched(old(records)@, final(records)@, *state, conn@, m@.command, suppressed, offer, r),
{
    if suppressed && !is_state_mutating(m.command.verb.as_str()) {
        return Dispatch::Suppressed(follow_of(m));
    }
    if ctcp_request(m).is_none() {
        return Dispatch::Handle { hide: suppressed, before: look_before(state, conn) };
    }
    let ghost given = offer;
    let offer = match offer {
        None => {
            return Dispatch::Handle { hide: suppressed, before: look_before(state, conn) };
        },
        Some(offer) => offer,
    };
    match answered(records, &offer) {
        None => Dispatch::Offer(follow_of(m)),
        Some(id) => {
            let ghost r0 = records@;
            assert(answers(r0, id@, offer));
            match records.get_mut(id.as_str()) {
                None => {},
                Some(record) => {
                    record.addr = offer.addr;
                    record.port = offer.port;
                    record.state = DccState::Connecting;
                },
            }
            Dispatch::Passive(id, follow_of(m))
        },
    }
}

/// What the first reply of a registration does: the nick is the one that the server confirmed, the
/// handle of an earlier registration is forgotten, and where messages may be encrypted the server is
/// asked once for the new one.
pub open spec fn welcomed(
    s0: AppState,
    s1: AppState,
    h0: Map<Seq<char>, IrcHandle>,
    h1: Map<Seq<char>, IrcHandle>,
    conn: Seq<char>,
    m: CommandV,
) -> bool {
    if m.verb != "001"@ || m.params.len() == 0 {
        s1 == s0 && h1 == h0
    } else {
        &&& if s0.connections@.contains_key(conn) {
            let c1 = s1.connections@[conn];
            &&& s1 == (AppState { connections: s1.connections, ..s0 })
            &&& s1.connections@ == s0.connections@.insert(conn, c1)
            &&& c1 == (Connection { nick: c1.nick, own_handle: None, ..s0.connections@[conn] })
            &&& c1.nick@ == m.params[0]
        } else {
            s1 == s0
        }
        &&& if s0.keyring is Some && h0.contains_key(conn) {
            &&& h1 == h0.insert(conn, h1[conn])
            &&& handle_took(h0[conn], h1[conn], seq![untagged("USERHOST"@, seq![m.params[0]])])
        } else {
            h1 == h0
        }
    }
}

/// Takes up the first reply of a registration.
pub fn welcome(state: &mut AppState, handles: &mut StrMap<IrcHandle>, conn: &str, m: &IrcMessage)
    ensures
        final(handles).keys() == old(handles).keys(),
        welcomed(*old(state), *final(state), old(handles)@, final(handles)@, conn@, m@.command),
{
    assert(m@.command.params.len() == m.command.params@.len());
    if !same(m.command.verb.as_str(), "001") || m.command.params.len() == 0 {
        return;
    }
    assert(m@.command.params[0] == m.command.params@[0]@);
    let nick = m.command.params[0].as_str();
    match state.connections.get_mut(conn) {
        None => {},
        Some(c) => {
            c.nick = nick.to_string();
            c.own_handle = None;
        },
    }
    if state.keyring.is_some() {
        match handles.get_mut(conn) {
            None => {},
            Some(handle) => {
                let ghost s0 = handle.sender;
                let command = command1("USERHOST", nick);
                let ghost cv = command@;
                let _sent = handle.sender.send(command);
                proof {
                    lemma_took_one(s0, handle.sender, cv);
                }
            },
        }
    }
}

/// A request for the names of a channel was sent; that it could not be is reported.
pub open spec fn names_requested(
    s0: AppState,
    s1: AppState,
    h0: Map<Seq<char>, IrcHandle>,
    h1: Map<Seq<char>, IrcHandle>,
    conn: Seq<char>,
    command: CommandV,
    error: Seq<char>,
    now_ms: i64,
) -> bool {
    if !h0.contains_key(conn) {
        s1 == s0 && h1 == h0
    } else {
        &&& h1 == h0.insert(conn, h1[conn])
        &&& handle_took(h0[conn], h1[conn], seq![command])
        &&& if h0[conn].sender.open() || !s0.connections@.contains_key(conn) {
            s1 == s0
        } else {
            event_added(
                s0,
                s1,
                buffer_id_seq(conn, s0.connections@[conn].label@),
                doubled("Could not request NAMES: "@ + error),
                now_ms,
            )
        }
    }
}

/// Asks for the names of a channel; `error` is what a failure is told as.
pub fn request_names(
    state: &mut AppState,
    handles: &mut StrMap<IrcHandle>,
    conn: &str,
    command: Command,
    error: &str,
    now_ms: i64,
)
    ensures
        final(handles).keys() == old(handles).keys(),
        names_requested(
            *old(state),
            *final(state),
            old(handles)@,
            final(handles)@,
            conn@,
            command@,
            error@,
            now_ms,
        ),
{
    let ghost cv = command@;
    let sent = match handles.get_mut(conn) {
        None => {
            return;
        },
        Some(handle) => {
            let ghost s0 = handle.sender;
            let sent = handle.sender.send(command).is_ok();
            proof {
                lemma_took_one(s0, handle.sender, cv);
            }
            sent
        },
    };
    if !sent {
        let buffer = match state.connections.get(conn) {
            None => {
                return;
            },
            Some(c) => make_buffer_id(conn, c.label.as_str()),
        };
        let text = concat("Could not request NAMES: ", error);
        add_event_to_buffer(state, buffer.as_str(), escape_percent(text.as_str()), now_ms);
    }
}

/// What was known before the state took a message up.
#[derive(Clone, Copy, Debug, PartialEq, Eq, Structural)]
pub struct Before {
    pub buffers: usize,
    /// The client knew its own `ident@host`.
    pub handle_known: bool,
}

/// The client knows its own `ident@host` on a connection.
pub open spec fn handle_known(state: AppState, conn: Seq<char>) -> bool {
    state.connections@.contains_key(conn) && state.connections@[conn].own_handle is Some
}

/// What is known in a state, before it takes a message of a connection up.
pub open spec fn known_before(before: Before, state: AppState, conn: Seq<char>) -> bool {
    &&& before.buffers == state.buffers.keys().len()
    &&& before.handle_known == handle_known(state, conn)
}

/// Notes what is known before the state takes a message up.
pub fn look_before(state: &AppState, conn: &str) -> (r: Before)
    ensures
        known_before(r, *state, conn@),
{
    Before {
        buffers: state.buffers.len(),
        handle_known: match state.connections.get(conn) {
            Some(c) => c.own_handle.is_some(),
            None => false,
        },
    }
}

/// The buffers that a message opened.
pub open spec fn opened_since(state: AppState, before: Before) -> Seq<Seq<char>> {
    if state.buffers.keys().len() > before.buffers {
        state.buffers.keys().skip(before.buffers as int)
    } else {
        Seq::empty()
    }
}

/// The buffers that a message opened, whose history is to be loaded.
pub fn new_buffers(state: &AppState, before: Before) -> (r: Vec<String>)
    ensures
        texts(r@) == opened_since(*state, before),
{
    let ghost keys = state.buffers.keys();
    let n: usize = state.buffers.len();
    let mut r: Vec<String> = Vec::new();
    if n <= before.buffers {
        assert(texts(r@) =~= Seq::<Seq<char>>::empty());
        return r;
    }
    let mut i: usize = before.buffers;
    while i < n
        invariant
            keys == state.buffers.keys(),
            n == keys.len(),
            before.buffers <= i <= n,
            texts(r@) =~= keys.subrange(before.buffers as int, i as int),
        decreases n - i,
    {
        let ghost was = texts(r@);
        let key = state.buffers.key_at(i).clone();
        let ghost k = key@;
        r.push(key);
        assert(texts(r@) =~= was.push(k));
        i = i + 1;
    }
    assert(texts(r@) =~= keys.skip(before.buffers as int));
    r
}

/// Whether the history of direct messages is to be asked for once more: the client just learned its own
/// `ident@host`, under which they can be read.
pub fn handle_just_learned(state: &AppState, conn: &str, before: Before) -> (r: bool)
    ensures
        r == (!before.handle_known && state.keyring is Some && handle_known(*state, conn@)),
{
    if before.handle_known || state.keyring.is_none() {
        return false;
    }
    match state.connections.get(conn) {
        Some(c) => c.own_handle.is_some(),
        None => false,
    }
}

/// The name of the buffer of a direct chat.
pub open spec fn chat_name(nick: Seq<char>) -> Seq<char> {
    seq!['='] + nick
}

/// The name of the buffer of a direct chat.
fn chat_buffer_name(nick: &str) -> (r: String)
    ensures
        r@ == chat_name(nick@),
{
    let mut name = String::new();
    name.push('=');
    name.append(nick);
    assert(name@ =~= chat_name(nick@));
    name
}

/// The name of a chat's buffer before and after its peer took another nick.
#[derive(Debug)]
pub struct Rename {
    pub from: String,
    pub to: String,
}

/// The model of a [`Rename`].
pub struct RenameV {
    pub from: Seq<char>,
    pub to: Seq<char>,
}

impl View for Rename {
    type V = RenameV;

    open spec fn view(&self) -> RenameV {
        RenameV { from: self.from@, to: self.to@ }
    }
}

/// The models of a list of renames.
pub open spec fn rename_views(v: Seq<Rename>) -> Seq<RenameV> {
    v.map_values(|r: Rename| r@)
}

/// The buffers of direct chats go on under the new nick, one after the other.
pub open spec fn chats_renamed(
    before: AppState,
    after: AppState,
    conn: Seq<char>,
    renames: Seq<RenameV>,
    nick: Seq<char>,
) -> bool
    decreases renames.len(),
{
    if renames.len() == 0 {
        after == before
    } else {
        exists|middle: AppState|
            {
                &&& chats_renamed(before, middle, conn, renames.drop_last(), nick)
                &&& #[trigger] rekeyed(
                    middle,
                    after,
                    buffer_id_seq(conn, renames.last().from),
                    buffer_id_seq(conn, renames.last().to),
                    chat_name(nick),
                )
            }
    }
}

/// Lets the buffers of direct chats go on under the new nick of the peer.
pub fn rename_chats(state: &mut AppState, conn: &str, renames: &Vec<Rename>, nick: &str)
    ensures
        chats_renamed(*old(state), *final(state), conn@, rename_views(renames@), nick@),
{
    let ghost before = *state;
    let ghost all = rename_views(renames@);
    let mut i: usize = 0;
    assert(all.take(0) =~= Seq::<RenameV>::empty());
    while i < renames.len()
        invariant
            i <= renames@.len(),
            all == rename_views(renames@),
            chats_renamed(before, *state, conn@, all.take(i as int), nick@),
        decreases renames@.len() - i,
    {
        let ghost middle = *state;
        let from = make_buffer_id(conn, renames[i].from.as_str());
        let to = make_buffer_id(conn, renames[i].to.as_str());
        let name = chat_buffer_name(nick);
        state.rekey_buffer(from.as_str(), to.as_str(), name);
        proof {
            assert(all.take(i + 1).drop_last() =~= all.take(i as int));
            let last = all.take(i + 1).last();
            assert(last == renames@[i as int]@);
            assert(rekeyed(
                middle,
                *state,
                buffer_id_seq(conn@, last.from),
                buffer_id_seq(conn@, last.to),
                chat_name(nick@),
            ));
        }
        i = i + 1;
    }
    assert(all.take(all.len() as int) =~= all);
}

/// A user who took another nick, and that nick.
pub open spec fn nick_taken(m: IrcMessageV) -> Option<(Seq<char>, Seq<char>)> {
    match m.source {
        Some(source) if m.command.verb == "NICK"@ && m.command.params.len() > 0 => Some(
            (source.nick, m.command.params[0]),
        ),
        _ => None,
    }
}

/// What the chats with a user are renamed to, in the order of the chats.
pub open spec fn chat_renames(
    records: Map<Seq<char>, DccRecord>,
    ids: Seq<Seq<char>>,
    from: Seq<char>,
    to: Seq<char>,
) -> Seq<RenameV>
    decreases ids.len(),
{
    if ids.len() == 0 {
        Seq::empty()
    } else {
        let init = chat_renames(records, ids.drop_last(), from, to);
        let nick = records[ids.last()].nick@;
        if lower_seq(nick) == lower_seq(from) {
            init.push(RenameV { from: chat_name(nick), to: chat_name(to) })
        } else {
            init
        }
    }
}

/// The chats with a user go on with the new nick.
pub open spec fn peers_renamed(
    r0: Map<Seq<char>, DccRecord>,
    r1: Map<Seq<char>, DccRecord>,
    from: Seq<char>,
    to: Seq<char>,
) -> bool {
    &&& r1.dom() == r0.dom()
    &&& forall|id: Seq<char>| #[trigger]
        r0.contains_key(id) ==> peer_renamed(r0[id], r1[id], from, to)
}

/// A chat with the user goes on with the new nick; any other stays as it is.
pub open spec fn peer_renamed(a: DccRecord, b: DccRecord, from: Seq<char>, to: Seq<char>) -> bool {
    if lower_seq(a.nick@) == lower_seq(from) {
        b == (DccRecord { nick: b.nick, ..a }) && b.nick@ == to
    } else {
        b == a
    }
}

/// Lets the chats with a user go on with the new nick. Returns how their buffers are renamed.
fn update_nick(records: &mut StrMap<DccRecord>, from: &str, to: &str) -> (r: Vec<Rename>)
    ensures
        rename_views(r@) == chat_renames(old(records)@, old(records).keys(), from@, to@),
        peers_renamed(old(records)@, final(records)@, from@, to@),
        final(records).keys() == old(records).keys(),
{
    let ghost r0 = records@;
    let ghost ids = records.keys();
    let n: usize = records.len();
    let mut r: Vec<Rename> = Vec::new();
    let mut i: usize = 0;
    assert(ids.take(0) =~= Seq::<Seq<char>>::empty());
    assert(rename_views(r@) =~= Seq::<RenameV>::empty());
    assert(records.ordered());
    while i < n
        invariant
            ids == records.keys(),
            ids == old(records).keys(),
            ids.no_duplicates(),
            n == ids.len(),
            i <= n,
            r0 == old(records)@,
            records@.dom() == r0.dom(),
            forall|j: int| 0 <= j < n ==> r0.contains_key(#[trigger] ids[j]),
            forall|j: int|
                0 <= j < i ==> peer_renamed(r0[#[trigger] ids[j]], records@[ids[j]], from@, to@),
            forall|j: int| i <= j < n ==> records@[#[trigger] ids[j]] == r0[ids[j]],
            rename_views(r@) == chat_renames(r0, ids.take(i as int), from@, to@),
        decreases n - i,
    {
        let ghost now = records@;
        let id = records.key_at(i).clone();
        let ghost k = ids[i as int];
        proof {
            assert(id@ == k);
            assert(r0.contains_key(ids[i as int]));
            assert(ids.take(i + 1).drop_last() =~= ids.take(i as int));
            assert(ids.take(i + 1).last() == k);
        }
        match records.get_mut(id.as_str()) {
            None => {},
            Some(record) => {
                if same_ignoring_case(record.nick.as_str(), from) {
                    let ghost was = rename_views(r@);
                    let rename = Rename {
                        from: chat_buffer_name(record.nick.as_str()),
                        to: chat_buffer_name(to),
                    };
                    let ghost rv = rename@;
                    r.push(rename);
                    assert(rename_views(r@) =~= was.push(rv));
                    record.nick = to.to_string();
                }
            },
        }
        proof {
            assert(records@.dom() =~= r0.dom());
            assert forall|j: int| 0 <= j < n && j != i implies records@[#[trigger] ids[j]] == now[ids[j]] by {
                assert(ids[j] != ids[i as int]);
            }
        }
        i = i + 1;
    }
    proof {
        assert(ids.take(n as int) =~= ids);
        assert forall|id: Seq<char>| #[trigger] r0.contains_key(id) implies peer_renamed(
            r0[id],
            records@[id],
            from@,
            to@,
        ) by {
            assert(records@.contains_key(id));
            let j = ids.index_of(id);
            assert(ids[j] == id);
        }
    }
    r
}

/// Reports that an offer to someone who is not there was cancelled.
pub fn report_cancelled(state: &mut AppState, nick: &str, now_ms: i64)
    ensures
        event_shown(
            *old(state),
            *final(state),
            "DCC CHAT to "@ + nick@ + " cancelled: no such nick"@,
            now_ms,
        ),
{
    state.add_local_event(concat3("DCC CHAT to ", nick, " cancelled: no such nick"), now_ms);
}

/// The nick that the server says does not exist.
pub fn missing_nick(m: &IrcMessage) -> (r: Option<String>)
    ensures
        opt_text(r) == reply_target(m@.command, "401"@),
{
    reply_param(m, "401")
}

/// Whether the greeting of the server is complete, so that history can be asked for.
pub fn greeting_ended(m: &IrcMessage) -> (r: bool)
    ensures
        r == (m@.command.verb == "376"@ || m@.command.verb == "422"@),
{
    same(m.command.verb.as_str(), "376") || same(m.command.verb.as_str(), "422")
}

/// A conversation whose gap is to be filled.
#[derive(Debug)]
pub struct Gapfill {
    pub connection_id: String,
    pub target: String,
}

/// The model of a [`Gapfill`].
pub struct GapfillV {
    pub connection_id: Seq<char>,
    pub target: Seq<char>,
}

impl View for Gapfill {
    type V = GapfillV;

    open spec fn view(&self) -> GapfillV {
        GapfillV { connection_id: self.connection_id@, target: self.target@ }
    }
}

/// The models of a list of gaps.
pub open spec fn gap_views(v: Seq<Gapfill>) -> Seq<GapfillV> {
    v.map_values(|g: Gapfill| g@)
}

/// The gaps that wait on: those that could not be asked for, each once behind what came in meanwhile.
pub open spec fn requeued(queue: Seq<GapfillV>, gaps: Seq<GapfillV>, done: Seq<bool>) -> Seq<GapfillV>
    decreases gaps.len(),
{
    if gaps.len() == 0 {
        queue
    } else {
        let init = requeued(queue, gaps.drop_last(), done);
        if done[gaps.len() - 1] || init.contains(gaps.last()) {
            init
        } else {
            init.push(gaps.last())
        }
    }
}

/// Whether a list holds a gap.
fn has_gap(list: &Vec<Gapfill>, gap: &Gapfill) -> (r: bool)
    ensures
        r == gap_views(list@).contains(gap@),
{
    let ghost all = gap_views(list@);
    let mut i: usize = 0;
    while i < list.len()
        invariant
            i <= list@.len(),
            all == gap_views(list@),
            forall|j: int| 0 <= j < i ==> #[trigger] all[j] != gap@,
        decreases list@.len() - i,
    {
        assert(all[i as int] == list@[i as int]@);
        if same(list[i].connection_id.as_str(), gap.connection_id.as_str()) && same(
            list[i].target.as_str(),
            gap.target.as_str(),
        ) {
            assert(all[i as int] == gap@);
            return true;
        }
        i = i + 1;
    }
    false
}

/// Queues the gaps again that could not be asked for.
pub fn requeue_gapfills(queue: &mut Vec<Gapfill>, gaps: Vec<Gapfill>, done: &Vec<bool>)
    requires
        done@.len() == gaps@.len(),
    ensures
        gap_views(final(queue)@) == requeued(gap_views(old(queue)@), gap_views(gaps@), done@),
{
    let ghost q0 = gap_views(queue@);
    let ghost all = gap_views(gaps@);
    let mut i: usize = 0;
    assert(all.take(0) =~= Seq::<GapfillV>::empty());
    while i < gaps.len()
        invariant
            i <= gaps@.len(),
            done@.len() == gaps@.len(),
            all == gap_views(gaps@),
            gap_views(queue@) == requeued(q0, all.take(i as int), done@),
        decreases gaps@.len() - i,
    {
        assert(all.take(i + 1).drop_last() =~= all.take(i as int));
        assert(all.take(i + 1).last() == gaps@[i as int]@);
        if !done[i] && !has_gap(queue, &gaps[i]) {
            let ghost was = gap_views(queue@);
            let g = Gapfill {
                connection_id: gaps[i].connection_id.clone(),
                target: gaps[i].target.clone(),
            };
            let ghost gv = g@;
            assert(gv == all[i as int]);
            queue.push(g);
            assert(gap_views(queue@) =~= was.push(gv));
        }
        i = i + 1;
    }
    assert(all.take(all.len() as int) =~= all);
}

/// What is left to do after the state took a live message up.
#[derive(Debug)]
pub enum After {
    /// The gap of a conversation is asked for; where it cannot be, it waits again.
    FillGap(Gapfill),
    /// The history of direct messages is asked for once more.
    FillQueries,
    /// The history of a new buffer is loaded.
    Load(String),
    /// A channel that was joined gets the history that it missed, where it is the active buffer.
    FillChannel(String),
    /// The users and modes of a channel are asked for.
    QueryChannel(String),
    /// A list of users is complete.
    WhoEnded(String),
    /// The active conversation gets the history that it missed.
    FillActive,
    /// The conversations that the bouncer keeps are looked for.
    Discover,
}

/// The model of an [`After`].
pub enum AfterV {
    FillGap(GapfillV),
    FillQueries,
    Load(Seq<char>),
    FillChannel(Seq<char>),
    QueryChannel(Seq<char>),
    WhoEnded(Seq<char>),
    FillActive,
    Discover,
}

impl View for After {
    type V = AfterV;

    open spec fn view(&self) -> AfterV {
        match self {
            After::FillGap(gap) => AfterV::FillGap(gap@),
            After::FillQueries => AfterV::FillQueries,
            After::Load(id) => AfterV::Load(id@),
            After::FillChannel(channel) => AfterV::FillChannel(channel@),
            After::QueryChannel(channel) => AfterV::QueryChannel(channel@),
            After::WhoEnded(target) => AfterV::WhoEnded(target@),
            After::FillActive => AfterV::FillActive,
            After::Discover => AfterV::Discover,
        }
    }
}

/// The models of a list of things to do.
pub open spec fn after_views(v: Seq<After>) -> Seq<AfterV> {
    v.map_values(|a: After| a@)
}

/// The gaps that wait are asked for, in their order.
pub open spec fn gaps_filled(gaps: Seq<GapfillV>) -> Seq<AfterV> {
    gaps.map_values(|g: GapfillV| AfterV::FillGap(g))
}

/// The history of new buffers is loaded, in their order.
pub open spec fn buffers_loaded(ids: Seq<Seq<char>>) -> Seq<AfterV> {
    ids.map_values(|id: Seq<char>| AfterV::Load(id))
}

/// What the end of a list or of the greeting leads to.
pub open spec fn ends_followed(m: CommandV) -> Seq<AfterV> {
    let names = match reply_target(m, "366"@) {
        Some(channel) => seq![AfterV::FillChannel(channel), AfterV::QueryChannel(channel)],
        None => Seq::empty(),
    };
    let who = match reply_target(m, "315"@) {
        Some(target) => seq![AfterV::WhoEnded(target)],
        None => Seq::empty(),
    };
    let greeting = if m.verb == "376"@ || m.verb == "422"@ {
        seq![AfterV::FillActive, AfterV::Discover]
    } else {
        Seq::empty()
    };
    names + who + greeting
}

/// What is left to do, in order: gaps, what a handle that was just learned makes readable, new buffers,
/// and the ends of lists and of the greeting.
pub open spec fn left_to_do(
    state: AppState,
    conn: Seq<char>,
    m: CommandV,
    before: Before,
    gaps: Seq<GapfillV>,
) -> Seq<AfterV> {
    let queries = if !before.handle_known && state.keyring is Some && handle_known(state, conn) {
        seq![AfterV::FillQueries]
    } else {
        Seq::empty()
    };
    gaps_filled(gaps) + queries + buffers_loaded(opened_since(state, before)) + ends_followed(m)
}

/// What follows a live message that the state took up, where asking for names left the state `sn` and
/// renaming chats left it `sc`.
pub open spec fn followed_by(
    a0: App,
    a1: App,
    r0: StrMap<DccRecord>,
    r1: StrMap<DccRecord>,
    conn: Seq<char>,
    m: IrcMessageV,
    before: Before,
    names: Option<Command>,
    error: Seq<char>,
    cancelled: Option<Seq<char>>,
    gaps: Seq<GapfillV>,
    now: Clock,
    r: Seq<AfterV>,
    sn: AppState,
    sc: AppState,
) -> bool {
    &&& a1 == (App { state: a1.state, irc_handles: a1.irc_handles, ..a0 })
    &&& a1.irc_handles.keys() == a0.irc_handles.keys()
    &&& r1.keys() == r0.keys()
    &&& match names {
        Some(command) => names_requested(
            a0.state,
            sn,
            a0.irc_handles@,
            a1.irc_handles@,
            conn,
            command@,
            error,
            now.utc_ms,
        ),
        None => sn == a0.state && a1.irc_handles@ == a0.irc_handles@,
    }
    &&& match nick_taken(m) {
        Some((from, to)) => {
            &&& peers_renamed(r0@, r1@, from, to)
            &&& chats_renamed(sn, sc, conn, chat_renames(r0@, r0.keys(), from, to), to)
        },
        None => sc == sn && r1@ == r0@,
    }
    &&& match (reply_target(m.command, "401"@), cancelled) {
        (Some(_), Some(nick)) => event_shown(
            sc,
            a1.state,
            "DCC CHAT to "@ + nick + " cancelled: no such nick"@,
            now.utc_ms,
        ),
        _ => a1.state == sc,
    }
    &&& r == left_to_do(sn, conn, m.command, before, gaps)
}

/// What follows a live message that the state took up: names are asked for, the chats with a user who
/// took another nick go on under it, an offer to someone who is not there is reported as cancelled, and
/// what is left to do is told in order.
pub open spec fn message_followed(
    a0: App,
    a1: App,
    r0: StrMap<DccRecord>,
    r1: StrMap<DccRecord>,
    conn: Seq<char>,
    m: IrcMessageV,
    before: Before,
    names: Option<Command>,
    error: Seq<char>,
    cancelled: Option<Seq<char>>,
    gaps: Seq<GapfillV>,
    now: Clock,
    r: Seq<AfterV>,
) -> bool {
    exists|sn: AppState, sc: AppState| #[trigger]
        followed_by(a0, a1, r0, r1, conn, m, before, names, error, cancelled, gaps, now, r, sn, sc)
}

/// What is left to do, in order.
fn plan_after(state: &AppState, conn: &str, m: &IrcMessage, before: Before, gaps: Vec<Gapfill>) -> (r: Vec<
    After,
>)
    ensures
        after_views(r@) == left_to_do(*state, conn@, m@.command, before, gap_views(gaps@)),
{
    let ghost gv = gap_views(gaps@);
    let ghost n = gaps@.len();
    let mut r: Vec<After> = Vec::new();
    let mut rest = gaps;
    assert(after_views(r@) =~= gaps_filled(gv).take(0));
    while rest.len() > 0
        invariant
            n == gv.len(),
            r@.len() + rest@.len() == n,
            forall|k: int| 0 <= k < rest@.len() ==> (#[trigger] rest@[k])@ == gv[r@.len() + k],
            after_views(r@) == gaps_filled(gv).take(r@.len() as int),
        decreases rest@.len(),
    {
        let ghost was = after_views(r@);
        let ghost left = rest@;
        let gap = rest.remove(0);
        let ghost one = AfterV::FillGap(gap@);
        proof {
            assert(gap@ == left[0]@);
            assert forall|k: int| 0 <= k < rest@.len() implies (#[trigger] rest@[k])@ == gv[r@.len() + 1
                + k] by {
                assert(rest@[k] == left[k + 1]);
            }
            assert(one == gaps_filled(gv)[r@.len() as int]);
        }
        r.push(After::FillGap(gap));
        assert(after_views(r@) =~= was.push(one));
        assert(after_views(r@) =~= gaps_filled(gv).take(r@.len() as int));
    }
    assert(after_views(r@) =~= gaps_filled(gv));
    let ghost mut done = gaps_filled(gv);
    if handle_just_learned(state, conn, before) {
        r.push(After::FillQueries);
        assert(after_views(r@) =~= done + seq![AfterV::FillQueries]);
        proof {
            done = done + seq![AfterV::FillQueries];
        }
    } else {
        assert(done =~= done + Seq::<AfterV>::empty());
    }
    let new = new_buffers(state, before);
    let ghost ids = texts(new@);
    let ghost loads = buffers_loaded(ids);
    let mut i: usize = 0;
    assert(after_views(r@) =~= done + loads.take(0));
    while i < new.len()
        invariant
            i <= new@.len(),
            ids == texts(new@),
            loads == buffers_loaded(ids),
            after_views(r@) == done + loads.take(i as int),
        decreases new@.len() - i,
    {
        let ghost was = after_views(r@);
        r.push(After::Load(new[i].clone()));
        assert(after_views(r@) =~= was.push(loads[i as int]));
        assert(after_views(r@) =~= done + loads.take(i + 1));
        i = i + 1;
    }
    assert(loads.take(loads.len() as int) =~= loads);
    proof {
        done = done + loads;
    }
    let Follow { names_ended, who_ended } = follow_of(m);
    let ghost nv = opt_text(names_ended);
    let ghost wv = opt_text(who_ended);
    match names_ended {
        Some(channel) => {
            let ghost was = after_views(r@);
            r.push(After::FillChannel(channel.clone()));
            assert(after_views(r@) =~= was.push(AfterV::FillChannel(channel@)));
            let ghost c = channel@;
            r.push(After::QueryChannel(channel));
            assert(after_views(r@) =~= done + seq![AfterV::FillChannel(c), AfterV::QueryChannel(c)]);
        },
        None => {
            assert(after_views(r@) =~= done + Seq::<AfterV>::empty());
        },
    }
    let ghost behind_names = after_views(r@);
    match who_ended {
        Some(target) => {
            let ghost t = target@;
            r.push(After::WhoEnded(target));
            assert(after_views(r@) =~= behind_names + seq![AfterV::WhoEnded(t)]);
        },
        None => {
            assert(after_views(r@) =~= behind_names + Seq::<AfterV>::empty());
        },
    }
    let ghost behind_who = after_views(r@);
    if greeting_ended(m) {
        r.push(After::FillActive);
        assert(after_views(r@) =~= behind_who.push(AfterV::FillActive));
        r.push(After::Discover);
        assert(after_views(r@) =~= behind_who + seq![AfterV::FillActive, AfterV::Discover]);
    } else {
        assert(after_views(r@) =~= behind_who + Seq::<AfterV>::empty());
    }
    assert(after_views(r@) =~= done + ends_followed(m@.command));
    r
}

/// Does what follows a live message once the state took it up. `before` is what was known before that,
/// `names` the request for names that the message calls for, `error` what a failure to send it is told
/// as, `cancelled` the peer of the offer that was withdrawn because there is no such nick, and `gaps`
/// the conversations whose gaps wait. Returns what is left to do.
pub fn after_live_message(
    app: &mut App,
    records: &mut StrMap<DccRecord>,
    conn: &str,
    m: &IrcMessage,
    before: Before,
    names: Option<Command>,
    error: &str,
    cancelled: Option<String>,
    gaps: Vec<Gapfill>,
    now: Clock,
) -> (r: Vec<After>)
    ensures
        message_followed(
            *old(app),
            *final(app),
            *old(records),
            *final(records),
            conn@,
            m@,
            before,
            names,
            error@,
            opt_text(cancelled),
            gap_views(gaps@),
            now,
            after_views(r@),
        ),
{
    let ghost a0 = *app;
    let ghost r0 = *records;
    let ghost cv = opt_text(cancelled);
    let ghost gv = gap_views(gaps@);
    let ghost nv = names;
    match names {
        None => {},
        Some(command) => {
            request_names(&mut app.state, &mut app.irc_handles, conn, command, error, now.utc_ms);
        },
    }
    let ghost sn = app.state;
    let r = plan_after(&app.state, conn, m, before, gaps);
    match &m.source {
        None => {},
        Some(source) => {
            assert(m@.command.params.len() == m.command.params@.len());
            if same(m.command.verb.as_str(), "NICK") && m.command.params.len() > 0 {
                let nick = m.command.params[0].as_str();
                assert(nick@ == m@.command.params[0]);
                let renames = update_nick(records, source.nick.as_str(), nick);
                rename_chats(&mut app.state, conn, &renames, nick);
            }
        },
    }
    let ghost sc = app.state;
    if missing_nick(m).is_some() {
        match cancelled {
            None => {},
            Some(nick) => report_cancelled(&mut app.state, nick.as_str(), now.utc_ms),
        }
    }
    assert(followed_by(
        a0,
        *app,
        r0,
        *records,
        conn@,
        m@,
        before,
        nv,
        error@,
        cv,
        gv,
        now,
        after_views(r@),
        sn,
        sc,
    ));
    r
}

/// Chats with one user under several spellings of the nick have the same buffer.
proof fn lemma_chat_buffer(conn: Seq<char>, a: Seq<char>, b: Seq<char>)
    requires
        lower_seq(a) == lower_seq(b),
    ensures
        buffer_id_seq(conn, chat_name(a)) == buffer_id_seq(conn, chat_name(b)),
{
    assert(a.len() == lower_seq(a).len() && b.len() == lower_seq(b).len());
    assert forall|i: int| 0 <= i < chat_name(a).len() implies lower_seq(chat_name(a))[i] == lower_seq(
        chat_name(b),
    )[i] by {
        assert(lower_seq(chat_name(a))[i] == lower_char(chat_name(a)[i]));
        assert(lower_seq(chat_name(b))[i] == lower_char(chat_name(b)[i]));
        if i > 0 {
            assert(lower_char(a[i - 1]) == lower_seq(a)[i - 1]);
            assert(lower_char(b[i - 1]) == lower_seq(b)[i - 1]);
            assert(chat_name(a)[i] == a[i - 1] && chat_name(b)[i] == b[i - 1]);
        } else {
            assert(chat_name(a)[0] == '=' && chat_name(b)[0] == '=');
        }
    }
    assert(lower_seq(chat_name(a)) =~= lower_seq(chat_name(b)));
}

/// Every rename of the chats with a user is of the same buffer, and there is one where there is a chat.
proof fn lemma_chat_renames(
    records: Map<Seq<char>, DccRecord>,
    ids: Seq<Seq<char>>,
    conn: Seq<char>,
    from: Seq<char>,
    to: Seq<char>,
)
    ensures
        forall|i: int|
            0 <= i < chat_renames(records, ids, from, to).len() ==> {
                let r = #[trigger] chat_renames(records, ids, from, to)[i];
                &&& buffer_id_seq(conn, r.from) == buffer_id_seq(conn, chat_name(from))
                &&& r.to == chat_name(to)
            },
        forall|i: int|
            0 <= i < ids.len() && lower_seq((#[trigger] records[ids[i]]).nick@) == lower_seq(from)
                ==> chat_renames(records, ids, from, to).len() > 0,
    decreases ids.len(),
{
    if ids.len() > 0 {
        let rest = ids.drop_last();
        lemma_chat_renames(records, rest, conn, from, to);
        let nick = records[ids.last()].nick@;
        if lower_seq(nick) == lower_seq(from) {
            lemma_chat_buffer(conn, nick, from);
        }
        let init = chat_renames(records, rest, from, to);
        let all = chat_renames(records, ids, from, to);
        assert forall|i: int| 0 <= i < all.len() implies buffer_id_seq(conn, (#[trigger] all[i]).from)
            == buffer_id_seq(conn, chat_name(from)) && all[i].to == chat_name(to) by {
            if i < init.len() {
                assert(all[i] == init[i]);
            }
        }
        assert forall|i: int|
            0 <= i < ids.len() && lower_seq((#[trigger] records[ids[i]]).nick@) == lower_seq(
                from,
            ) implies chat_renames(records, ids, from, to).len() > 0 by {
            if i < rest.len() {
                assert(records[rest[i]].nick@ == records[ids[i]].nick@);
            }
        }
    }
}

/// Renaming one buffer, as often as it is asked for, moves it once.
proof fn lemma_renamed_once(
    before: AppState,
    after: AppState,
    conn: Seq<char>,
    renames: Seq<RenameV>,
    nick: Seq<char>,
    from: Seq<char>,
    to: Seq<char>,
)
    requires
        chats_renamed(before, after, conn, renames, nick),
        renames.len() > 0,
        forall|i: int|
            0 <= i < renames.len() ==> buffer_id_seq(conn, (#[trigger] renames[i]).from) == from
                && buffer_id_seq(conn, renames[i].to) == to,
        before.buffers@.contains_key(from),
        from != to,
    ensures
        rekeyed(before, after, from, to, chat_name(nick)),
        !after.buffers@.contains_key(from),
    decreases renames.len(),
{
    let rest = renames.drop_last();
    let middle = choose|middle: AppState|
        {
            &&& chats_renamed(before, middle, conn, rest, nick)
            &&& #[trigger] rekeyed(
                middle,
                after,
                buffer_id_seq(conn, renames.last().from),
                buffer_id_seq(conn, renames.last().to),
                chat_name(nick),
            )
        };
    assert(renames.last() == renames[renames.len() - 1]);
    if rest.len() > 0 {
        lemma_renamed_once(before, middle, conn, rest, nick, from, to);
    }
}

/// A direct chat goes on when its peer takes another nick: its buffer is there under the new nick and no
/// more under the old one, and it keeps its place among the buffers that wait to be read.
pub proof fn renamed_chats_keep_their_place(
    a0: App,
    a1: App,
    r0: StrMap<DccRecord>,
    r1: StrMap<DccRecord>,
    conn: Seq<char>,
    m: IrcMessageV,
    before: Before,
    names: Option<Command>,
    error: Seq<char>,
    cancelled: Option<Seq<char>>,
    gaps: Seq<GapfillV>,
    now: Clock,
    r: Seq<AfterV>,
    from: Seq<char>,
    to: Seq<char>,
    chat: int,
)
    requires
        message_followed(a0, a1, r0, r1, conn, m, before, names, error, cancelled, gaps, now, r),
        nick_taken(m) == Some((from, to)),
        0 <= chat < r0.keys().len(),
        lower_seq(r0@[r0.keys()[chat]].nick@) == lower_seq(from),
        a0.state.buffers@.contains_key(buffer_id_seq(conn, chat_name(from))),
        buffer_id_seq(conn, chat_name(from)) != buffer_id_seq(conn, chat_name(to)),
    ensures
        !a1.state.buffers@.contains_key(buffer_id_seq(conn, chat_name(from))),
        a1.state.buffers@.contains_key(buffer_id_seq(conn, chat_name(to))),
        a1.state.buffers@[buffer_id_seq(conn, chat_name(to))].name@ == chat_name(to),
        texts(a1.state.activity_order@) == seq_renamed(
            texts(a0.state.activity_order@),
            buffer_id_seq(conn, chat_name(from)),
            buffer_id_seq(conn, chat_name(to)),
        ),
{
    let (sn, sc) = choose|sn: AppState, sc: AppState| #[trigger]
        followed_by(a0, a1, r0, r1, conn, m, before, names, error, cancelled, gaps, now, r, sn, sc);
    let old_id = buffer_id_seq(conn, chat_name(from));
    let new_id = buffer_id_seq(conn, chat_name(to));
    lemma_chat_renames(r0@, r0.keys(), conn, from, to);
    let renames = chat_renames(r0@, r0.keys(), from, to);
    assert(renames.len() > 0) by {
        assert(lower_seq(r0@[r0.keys()[chat]].nick@) == lower_seq(from));
    }
    lemma_renamed_once(sn, sc, conn, renames, to, old_id, new_id);
    reveal_strlit("NICK");
    reveal_strlit("401");
    assert("NICK"@.len() != "401"@.len());
}

/// How a live message is shown.
#[derive(Debug)]
pub struct Route {
    /// The buffer that an answer goes to.
    pub reply_buffer: Option<String>,
    /// The message only says that a request was taken.
    pub acknowledgement: bool,
}

/// A message only says that a request was taken.
pub open spec fn acknowledges(m: CommandV) -> bool {
    lower_seq(m.verb) == lower_seq("ACK"@)
}

/// Where the answer that a live message holds goes: an answer without a label belongs nowhere.
pub open spec fn reply_routed(
    l0: Map<Seq<char>, Labels>,
    l1: Map<Seq<char>, Labels>,
    state: AppState,
    conn: Seq<char>,
    m: CommandV,
    now: u64,
    buffer: Option<Seq<char>>,
) -> bool {
    match tag_value(m.tags, "label"@) {
        None => buffer is None && l1 == l0,
        Some(label) => labels_ticked(l0, l1, state, now) && buffer == response_buffer(
            l1,
            state,
            conn,
            label,
        ),
    }
}

/// Finds where the answer that a live message holds goes.
pub fn route_reply(
    labels: &mut StrMap<Labels>,
    state: &AppState,
    conn: &str,
    m: &IrcMessage,
    now: u64,
) -> (r: Route)
    ensures
        r.acknowledgement == acknowledges(m@.command),
        reply_routed(
            old(labels)@,
            final(labels)@,
            *state,
            conn@,
            m@.command,
            now,
            opt_text(r.reply_buffer),
        ),
{
    let acknowledgement = same_ignoring_case(m.command.verb.as_str(), "ACK");
    let reply_buffer = match tag_text(&m.command.tags, "label") {
        None => labeled_response_buffer(labels, state, conn, None, now),
        Some(label) => labeled_response_buffer(labels, state, conn, Some(label.as_str()), now),
    };
    Route { reply_buffer, acknowledgement }
}

/// The request that a live message answers is closed, unless the answer is a batch that goes on.
pub open spec fn reply_finished(
    l0: Map<Seq<char>, Labels>,
    l1: Map<Seq<char>, Labels>,
    conn: Seq<char>,
    m: CommandV,
) -> bool {
    match tag_value(m.tags, "label"@) {
        Some(label) if !tagged(m.tags, "batch"@) && l0.contains_key(conn) => {
            &&& l1 == l0.insert(conn, l1[conn])
            &&& l1[conn].counter == l0[conn].counter
            &&& l1[conn].entries@ == l0[conn].entries@.remove(label)
        },
        _ => l1 == l0,
    }
}

/// Closes the request that a live message answers, unless the answer is a batch that goes on.
pub fn finish_reply(labels: &mut StrMap<Labels>, conn: &str, m: &IrcMessage)
    ensures
        reply_finished(old(labels)@, final(labels)@, conn@, m@.command),
{
    if has_tag(&m.command.tags, "batch") {
        return;
    }
    match tag_text(&m.command.tags, "label") {
        None => {},
        Some(label) => finish_labeled_response(labels, conn, label.as_str()),
    }
}

/// What a live message is to the observers that see it before scripts do.
#[derive(Debug)]
pub enum Observed {
    /// It told who of the watched users is there.
    Watched,
    /// It told what was read elsewhere.
    Marker(MarkerOutcome),
    /// It goes on to the scripts.
    Onward,
}

/// Who claimed a live message, where watching users left the state `sm`.
pub open spec fn claimed(
    a0: App,
    a1: App,
    s0: Sessions,
    s1: Sessions,
    conn: Seq<char>,
    m: CommandV,
    user: Seq<char>,
    watch: Watch,
    now: Clock,
    r: Observed,
    sm: AppState,
) -> bool {
    &&& monitor_observed(
        s0.monitors@,
        s1.monitors@,
        a0.state,
        sm,
        conn,
        user,
        watch.handled,
        texts(watch.rows@),
        now.utc_ms,
        r is Watched,
    )
    &&& match r {
        Observed::Watched => {
            &&& a1.state == sm
            &&& a1.irc_handles@ == a0.irc_handles@
            &&& s1.markers@ == s0.markers@
        },
        Observed::Marker(outcome) => {
            &&& a1.state == sm
            &&& a1.irc_handles@ == a0.irc_handles@
            &&& outcome.handled
            &&& marker_handled(
                s0.markers@,
                s1.markers@,
                sm,
                conn,
                m.verb,
                m.params,
                now.mono_ms,
                outcome,
            )
        },
        Observed::Onward => {
            &&& marker_handled(
                s0.markers@,
                s1.markers@,
                sm,
                conn,
                m.verb,
                m.params,
                now.mono_ms,
                (MarkerOutcome { handled: false, apply: None, report: None }),
            )
            &&& welcomed(sm, a1.state, a0.irc_handles@, a1.irc_handles@, conn, m)
        },
    }
}

/// What the observers made of a live message. Each sees it only where none before it claimed it; the
/// bouncer software is learned from any.
pub open spec fn observed(
    a0: App,
    a1: App,
    s0: Sessions,
    s1: Sessions,
    conn: Seq<char>,
    m: CommandV,
    from: Origin,
    user: Seq<char>,
    watch: Watch,
    now: Clock,
    r: Observed,
) -> bool {
    &&& s1 == (Sessions {
        presence: s1.presence,
        monitors: s1.monitors,
        markers: s1.markers,
        ..s0
    })
    &&& a1 == (App { state: a1.state, irc_handles: a1.irc_handles, ..a0 })
    &&& match from.number {
        Some(number) => presence_observed(
            s0.presence,
            s1.presence,
            conn,
            number,
            opt_text(from.server),
            m.params,
        ),
        None => s1.presence == s0.presence,
    }
    &&& exists|sm: AppState| #[trigger]
        claimed(a0, a1, s0, s1, conn, m, user, watch, now, r, sm)
}

/// Who sent a live message, as far as the observers ask.
#[derive(Debug)]
pub struct Origin {
    /// The number of a reply, zero for a command of an extension; the other commands have none.
    pub number: Option<u64>,
    /// The server that sent the message.
    pub server: Option<String>,
}

/// What watching users made of a live message.
#[derive(Debug)]
pub struct Watch {
    /// The message was only about watched users.
    pub handled: bool,
    /// What is shown of it.
    pub rows: Vec<String>,
}

/// Lets the observers see a live message, and takes up the first reply of a registration that none of
/// them claims. `user` is the login that an account without one of its own has.
pub fn dispatch_live_irc_message_inner(
    app: &mut App,
    sessions: &mut Sessions,
    conn: &str,
    m: &IrcMessage,
    from: &Origin,
    user: &str,
    watch: &Watch,
    now: Clock,
) -> (r: Observed)
    ensures
        observed(
            *old(app),
            *final(app),
            *old(sessions),
            *final(sessions),
            conn@,
            m@.command,
            *from,
            user@,
            *watch,
            now,
            r,
        ),
{
    let ghost a0 = *app;
    let ghost s0 = *sessions;
    match from.number {
        None => {},
        Some(number) => {
            let server = match &from.server {
                None => None,
                Some(server) => Some(server.as_str()),
            };
            sessions.presence.observe_bouncer_presence(conn, number, server, &m.command.params);
        },
    }
    if observe_monitor(
        &mut sessions.monitors,
        &mut app.state,
        user,
        conn,
        watch.handled,
        &watch.rows,
        now.utc_ms,
    ) {
        let r = Observed::Watched;
        assert(claimed(a0, *app, s0, *sessions, conn@, m@.command, user@, *watch, now, r, app.state));
        return r;
    }
    let outcome = handle_read_marker(
        &mut sessions.markers,
        &app.state,
        conn,
        m.command.verb.as_str(),
        &m.command.params,
        now.mono_ms,
    );
    if outcome.handled {
        let r = Observed::Marker(outcome);
        assert(claimed(a0, *app, s0, *sessions, conn@, m@.command, user@, *watch, now, r, app.state));
        return r;
    }
    let ghost sm = app.state;
    welcome(&mut app.state, &mut app.irc_handles, conn, m);
    let r = Observed::Onward;
    assert(claimed(a0, *app, s0, *sessions, conn@, m@.command, user@, *watch, now, r, sm));
    r
}

/// What a live message was.
#[derive(Debug)]
pub enum Live {
    /// It said that a search failed.
    Search,
    /// It only said that a request was taken.
    Acknowledged,
    /// The observers saw it; an answer goes to this buffer.
    Seen(Observed, Option<String>),
}

/// What a live message that is about no search was. Routing its answer left the sessions `sr`, and the
/// observers left them `so`. The request that it answers is closed, unless the message goes on.
pub open spec fn seen(
    a0: App,
    a1: App,
    s0: Sessions,
    s1: Sessions,
    conn: Seq<char>,
    m: CommandV,
    from: Origin,
    user: Seq<char>,
    watch: Watch,
    now: Clock,
    r: Live,
    sr: Sessions,
    so: Sessions,
) -> bool {
    &&& sr == (Sessions { labels: sr.labels, ..s0 })
    &&& s1 == (Sessions { labels: s1.labels, ..so })
    &&& match r {
        Live::Search => false,
        Live::Acknowledged => {
            &&& acknowledges(m)
            &&& exists|buffer: Option<Seq<char>>| #[trigger]
                reply_routed(s0.labels@, sr.labels@, a0.state, conn, m, now.mono_ms, buffer)
            &&& a1 == a0
            &&& so == sr
            &&& reply_finished(so.labels@, s1.labels@, conn, m)
        },
        Live::Seen(o, buffer) => {
            &&& !acknowledges(m)
            &&& reply_routed(
                s0.labels@,
                sr.labels@,
                a0.state,
                conn,
                m,
                now.mono_ms,
                opt_text(buffer),
            )
            &&& observed(a0, a1, sr, so, conn, m, from, user, watch, now, o)
            &&& if o is Onward {
                s1.labels@ == so.labels@
            } else {
                reply_finished(so.labels@, s1.labels@, conn, m)
            }
        },
    }
}

/// What a live message was: the failure of a search goes no further.
pub open spec fn live_dispatched(
    a0: App,
    a1: App,
    s0: Sessions,
    s1: Sessions,
    conn: Seq<char>,
    m: CommandV,
    from: Origin,
    user: Seq<char>,
    watch: Watch,
    now: Clock,
    r: Live,
) -> bool {
    if s0.searches.pending@.contains_key(conn) && failure_of(s0.searches.pending@[conn], m) is Some {
        &&& r is Search
        &&& a1 == (App { state: a1.state, ..a0 })
        &&& s1 == (Sessions { searches: s1.searches, ..s0 })
        &&& search_handled(s0.searches, s1.searches, a0.state, a1.state, conn, m, now.utc_ms, true)
    } else {
        exists|sr: Sessions, so: Sessions| #[trigger]
            seen(a0, a1, s0, s1, conn, m, from, user, watch, now, r, sr, so)
    }
}

/// Dispatches a live message as far as the scripts. One that goes on to them is taken up by
/// [`decide_dispatch`], and the request that it answers is closed by [`finish_reply`] after that.
pub fn dispatch_live_irc_message(
    app: &mut App,
    sessions: &mut Sessions,
    conn: &str,
    m: &IrcMessage,
    from: &Origin,
    user: &str,
    watch: &Watch,
    now: Clock,
) -> (r: Live)
    ensures
        live_dispatched(
            *old(app),
            *final(app),
            *old(sessions),
            *final(sessions),
            conn@,
            m@.command,
            *from,
            user@,
            *watch,
            now,
            r,
        ),
{
    let ghost a0 = *app;
    let ghost s0 = *sessions;
    if handle_server_search(&mut sessions.searches, &mut app.state, conn, m, now.utc_ms) {
        return Live::Search;
    }
    let route = route_reply(&mut sessions.labels, &app.state, conn, m, now.mono_ms);
    let ghost sr = *sessions;
    if route.acknowledgement {
        finish_reply(&mut sessions.labels, conn, m);
        let r = Live::Acknowledged;
        assert(seen(a0, *app, s0, *sessions, conn@, m@.command, *from, user@, *watch, now, r, sr, sr));
        return r;
    }
    let o = dispatch_live_irc_message_inner(app, sessions, conn, m, from, user, watch, now);
    let ghost so = *sessions;
    let onward = match &o {
        Observed::Onward => true,
        _ => false,
    };
    if !onward {
        finish_reply(&mut sessions.labels, conn, m);
    }
    let r = Live::Seen(o, route.reply_buffer);
    assert(seen(a0, *app, s0, *sessions, conn@, m@.command, *from, user@, *watch, now, r, sr, so));
    r
}

/// A script can hide what is said and who comes and goes, but not keep the state from following the
/// server.
pub proof fn hidden_changes_still_happen(
    r0: Map<Seq<char>, DccRecord>,
    r1: Map<Seq<char>, DccRecord>,
    state: AppState,
    conn: Seq<char>,
    m: IrcMessageV,
    suppressed: bool,
    offer: Option<DccOffer>,
    r: Dispatch,
)
    requires
        dispatched(r0, r1, state, conn, m.command, suppressed, offer, r),
        mutating(m.command.verb),
    ensures
        r matches Dispatch::Handle { hide, before } && hide == suppressed,
{
    reveal_strlit("PRIVMSG");
    reveal_strlit("JOIN");
    reveal_strlit("PART");
    reveal_strlit("QUIT");
    reveal_strlit("KICK");
    reveal_strlit("NICK");
    reveal_strlit("MODE");
    reveal_strlit("TOPIC");
    reveal_strlit("ACCOUNT");
    reveal_strlit("AWAY");
    reveal_strlit("CHGHOST");
    reveal_strlit("SETNAME");
    if m.command.verb == "PRIVMSG"@ {
        assert("PRIVMSG"@[0] == 'P' && "ACCOUNT"@[0] == 'A' && "CHGHOST"@[0] == 'C');
        assert(lower_seq("PRIVMSG"@)[0] == lower_char('P'));
        assert(lower_seq("SETNAME"@)[0] == lower_char('S'));
    }
}

/// Messages are taken up: one that no script hid and that is no request between clients is handled in the open,
/// and what it opened is loaded, in the order in which it was opened.
pub proof fn messages_are_taken_up(
    r0: Map<Seq<char>, DccRecord>,
    r1: Map<Seq<char>, DccRecord>,
    state: AppState,
    after: AppState,
    conn: Seq<char>,
    m: CommandV,
    offer: Option<DccOffer>,
    r: Dispatch,
    fresh: Seq<Seq<char>>,
)
    requires
        dispatched(r0, r1, state, conn, m, false, offer, r),
        m.verb != "PRIVMSG"@ || m.params.len() < 2 || m.params[1].len() == 0 || m.params[1][0] != '\u{1}',
        after.buffers.keys() == state.buffers.keys() + fresh,
    ensures
        r matches Dispatch::Handle { hide, before } && !hide && opened_since(after, before) == fresh,
        r1 == r0,
{
    let keys = state.buffers.keys();
    assert((keys + fresh).skip(keys.len() as int) =~= fresh);
}

/// A request between clients is what stands between its marks.
pub proof fn requests_stand_between_marks(target: Seq<char>, body: Seq<char>, tags: Seq<TagV>)
    requires
        body.len() > 0,
    ensures
        ctcp_body(
            CommandV {
                tags,
                verb: "PRIVMSG"@,
                params: seq![target, seq!['\u{1}'] + body + seq!['\u{1}']],
            },
        ) == Some(body),
{
    let text = seq!['\u{1}'] + body + seq!['\u{1}'];
    assert(text.subrange(1, text.len() - 1) =~= body);
}

/// A gap that could not be asked for waits again, behind those that waited before, and none waits twice.
pub proof fn unfilled_gaps_wait_again(queue: Seq<GapfillV>, gaps: Seq<GapfillV>, done: Seq<bool>, i: int)
    requires
        0 <= i < gaps.len(),
        done.len() == gaps.len(),
    ensures
        queue.is_prefix_of(requeued(queue, gaps, done)),
        !done[i] ==> requeued(queue, gaps, done).contains(gaps[i]),
        forall|k: int|
            queue.len() <= k < requeued(queue, gaps, done).len() ==> gaps.contains(
                #[trigger] requeued(queue, gaps, done)[k],
            ),
{
    lemma_requeued(queue, gaps, done, i);
}

proof fn lemma_requeued(queue: Seq<GapfillV>, gaps: Seq<GapfillV>, done: Seq<bool>, i: int)
    ensures
        queue.is_prefix_of(requeued(queue, gaps, done)),
        0 <= i < gaps.len() && !done[i] ==> requeued(queue, gaps, done).contains(gaps[i]),
        forall|k: int|
            queue.len() <= k < requeued(queue, gaps, done).len() ==> gaps.contains(
                #[trigger] requeued(queue, gaps, done)[k],
            ),
    decreases gaps.len(),
{
    let all = requeued(queue, gaps, done);
    if gaps.len() == 0 {
        assert(queue =~= all.subrange(0, queue.len() as int));
    } else {
        let rest = gaps.drop_last();
        let init = requeued(queue, rest, done);
        lemma_requeued(queue, rest, done, i);
        assert(queue =~= all.subrange(0, queue.len() as int)) by {
            assert(queue =~= init.subrange(0, queue.len() as int));
        }
        if 0 <= i < gaps.len() && !done[i] {
            if i < rest.len() {
                assert(rest[i] == gaps[i]);
                assert(all[init.index_of(gaps[i])] == gaps[i]);
            } else if init.contains(gaps.last()) {
                assert(all[init.index_of(gaps[i])] == gaps[i]);
            } else {
                assert(all[all.len() - 1] == gaps[i]);
            }
        }
        assert forall|k: int| queue.len() <= k < all.len() implies gaps.contains(#[trigger] all[k]) by {
            if k < init.len() {
                assert(all[k] == init[k]);
                assert(rest.contains(init[k]));
                assert(gaps[rest.index_of(init[k])] == all[k]);
            } else {
                assert(gaps[gaps.len() - 1] == all[k]);
            }
        }
    }
}

} // verus!
