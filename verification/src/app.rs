//! The application: everything that the event loop works on.
use vstd::prelude::*;

use crate::alias::AliasContext;
use crate::collections::StrMap;
use crate::state::{
    AppState, Buffer, BufferType, Connection, Identity, PendingE2eSend, Provider, ServerConfig,
};
use crate::typing::{Draft, Told, Typing};
use crate::wire::{command2, lemma_took_nothing, lemma_took_twice, untagged, CommandV, IrcSender, LineSender};

verus! {

broadcast use vstd::string::group_string_axioms;

/// The time of an event.
#[derive(Clone, Copy, Debug, PartialEq, Eq, Structural)]
pub struct Clock {
    /// Milliseconds of a clock that never goes back.
    pub mono_ms: u64,
    /// Milliseconds since the Unix epoch.
    pub utc_ms: i64,
}

/// The live side of a connection.
pub struct IrcHandle {
    pub sender: IrcSender,
    pub bouncer_identity: Option<Identity>,
    pub bouncer_provider: Option<Provider>,
    /// The address that the client has on the connection.
    pub local_ip: Option<String>,
}

/// Which kinds of conversations are told that a message is being typed.
#[derive(Clone, Copy, Debug, PartialEq, Eq, Structural)]
pub struct TypingConfig {
    pub send_channels: bool,
    pub send_queries: bool,
}

/// What the user configured.
pub struct Config {
    pub nick: String,
    pub username: String,
    pub servers: StrMap<ServerConfig>,
    pub aliases: StrMap<String>,
    pub typing: TypingConfig,
    pub shrink_enabled: bool,
    pub shrink_outgoing: bool,
    pub spellcheck_enabled: bool,
}

/// How a spelling correction is offered at the moment.
#[derive(Clone, Copy, Debug, PartialEq, Eq, Structural)]
pub enum Spell {
    Off,
    /// The word is only marked.
    Highlight,
    /// The word is replaced by a suggestion; a space may follow it already.
    Replace { space_follows: bool },
}

/// What lies over the chat.
#[derive(Clone, Copy, Debug, PartialEq, Eq, Structural)]
pub struct Overlays {
    pub wizard: bool,
    pub picker: bool,
    /// An image is shown.
    pub preview: bool,
    pub spell: Spell,
}

/// The dictionaries of a spell checker.
#[derive(Clone, Copy, Debug, PartialEq, Eq, Structural)]
pub struct Checker {
    pub dictionaries: u64,
    /// Computing terms count as known words.
    pub computing: bool,
}

/// A part of the screen.
#[derive(Clone, Copy, Debug, PartialEq, Eq, Structural)]
pub struct Rect {
    pub x: u16,
    pub y: u16,
    pub width: u16,
    pub height: u16,
}

/// Where the parts of the screen are.
#[derive(Clone, Copy, Debug, PartialEq, Eq, Structural)]
pub struct Regions {
    pub chat: Option<Rect>,
    pub buffer_list: Option<Rect>,
    pub nick_list: Option<Rect>,
}

/// Everything that the event loop works on.
pub struct App {
    pub state: AppState,
    pub config: Config,
    pub irc_handles: StrMap<IrcHandle>,
    /// Connected DCC chats, by the lower-case nick of the peer.
    pub dcc_chats: StrMap<LineSender>,
    pub typing: Typing,
    /// The text in the terminal's input line.
    pub input: String,
    pub scroll_offset: usize,
    pub log_browser_mode: bool,
    pub shell_input_active: bool,
    /// Whether the link shortener is there.
    pub shrink_ready: bool,
    pub should_quit: bool,
    /// Someone is known to be at the terminal.
    pub terminal_focused: bool,
    /// When Escape was last pressed on its own, in monotonic milliseconds.
    pub last_esc: Option<u64>,
    pub buffer_list_scroll: usize,
    pub buffer_list_total: usize,
    pub nick_list_scroll: usize,
    pub nick_list_total: usize,
    pub overlays: Overlays,
    /// Where the parts of the screen are, once it has been drawn.
    pub regions: Option<Regions>,
    /// Lines of a large paste that are still to be sent.
    pub paste_queue: Vec<String>,
    pub spellchecker: Option<Checker>,
}

/// Nothing is open, connected or typed.
pub open spec fn fresh(app: App, config: Config) -> bool {
    &&& app.config == config
    &&& app.state.buffers@ == Map::<Seq<char>, Buffer>::empty()
    &&& app.state.buffers.keys() == Seq::<Seq<char>>::empty()
    &&& app.state.connections@ == Map::<Seq<char>, Connection>::empty()
    &&& app.state.connections.keys() == Seq::<Seq<char>>::empty()
    &&& app.state.active_buffer_id is None
    &&& app.state.previous_buffer_id is None
    &&& app.state.message_counter == 0
    &&& app.state.keyring is None
    &&& app.state.pending_e2e_sends@.len() == 0
    &&& app.state.activity_order@.len() == 0
    &&& app.state.echo_slots@.len() == 0
    &&& app.irc_handles@ == Map::<Seq<char>, IrcHandle>::empty()
    &&& app.dcc_chats@ == Map::<Seq<char>, LineSender>::empty()
    &&& app.typing.tui is None
    &&& app.typing.web@ == Map::<Seq<char>, Draft>::empty()
    &&& app.typing.told@ == Map::<Seq<char>, Told>::empty()
    &&& app.typing.messages@ == Map::<Seq<char>, u64>::empty()
    &&& app.input@ == Seq::<char>::empty()
    &&& app.scroll_offset == 0
    &&& !app.log_browser_mode
    &&& !app.shell_input_active
    &&& !app.shrink_ready
    &&& !app.should_quit
    &&& !app.terminal_focused
    &&& app.last_esc is None
    &&& app.buffer_list_scroll == 0
    &&& app.buffer_list_total == 0
    &&& app.nick_list_scroll == 0
    &&& app.nick_list_total == 0
    &&& app.overlays == (Overlays { wizard: false, picker: false, preview: false, spell: Spell::Off })
    &&& app.regions is None
    &&& app.paste_queue@.len() == 0
    &&& app.spellchecker is None
}

impl App {
    /// An application with nothing open and nothing connected.
    pub fn new(config: Config) -> (r: App)
        ensures
            fresh(r, config),
    {
        App {
            state: AppState::new(),
            config,
            irc_handles: StrMap::new(),
            dcc_chats: StrMap::new(),
            typing: Typing::new(),
            input: String::new(),
            scroll_offset: 0,
            log_browser_mode: false,
            shell_input_active: false,
            shrink_ready: false,
            should_quit: false,
            terminal_focused: false,
            last_esc: None,
            buffer_list_scroll: 0,
            buffer_list_total: 0,
            nick_list_scroll: 0,
            nick_list_total: 0,
            overlays: Overlays { wizard: false, picker: false, preview: false, spell: Spell::Off },
            regions: None,
            paste_queue: Vec::new(),
            spellchecker: None,
        }
    }
}

/// The notices that `sends` has for a connection.
pub open spec fn notices_for(sends: Seq<PendingE2eSend>, conn_id: Seq<char>) -> Seq<CommandV>
    decreases sends.len(),
{
    if sends.len() == 0 {
        Seq::empty()
    } else {
        let init = notices_for(sends.drop_last(), conn_id);
        let last = sends.last();
        if last.connection_id@ == conn_id {
            init.push(untagged("NOTICE"@, seq![last.target@, last.notice_text@]))
        } else {
            init
        }
    }
}

/// A handle whose sender took more, and which is otherwise the same.
pub open spec fn handle_took(before: IrcHandle, after: IrcHandle, commands: Seq<CommandV>) -> bool {
    &&& after == (IrcHandle { sender: after.sender, ..before })
    &&& before.sender.took(after.sender, commands)
}

/// Every connection took its notices.
pub open spec fn notices_sent(
    before: StrMap<IrcHandle>,
    after: StrMap<IrcHandle>,
    sends: Seq<PendingE2eSend>,
) -> bool {
    &&& after@.dom() == before@.dom()
    &&& after.keys() == before.keys()
    &&& forall|c: Seq<char>| #[trigger]
        before@.contains_key(c) ==> handle_took(before@[c], after@[c], notices_for(sends, c))
}

/// Sends the queued key notices; those without a live connection are dropped.
pub fn send_notices(handles: &mut StrMap<IrcHandle>, sends: &Vec<PendingE2eSend>)
    ensures
        notices_sent(*old(handles), *final(handles), sends@),
{
    let ghost before = *handles;
    let mut i: usize = 0;
    proof {
        assert(sends@.take(0) =~= Seq::<PendingE2eSend>::empty());
        assert forall|c: Seq<char>| #[trigger] before@.contains_key(c) implies handle_took(
            before@[c],
            before@[c],
            notices_for(sends@.take(0), c),
        ) by {
            lemma_took_nothing(before@[c].sender);
        }
    }
    while i < sends.len()
        invariant
            i <= sends@.len(),
            notices_sent(before, *handles, sends@.take(i as int)),
        decreases sends@.len() - i,
    {
        let ghost middle = *handles;
        proof {
            assert(sends@.take(i + 1).drop_last() =~= sends@.take(i as int));
            assert(sends@.take(i + 1).last() == sends@[i as int]);
        }
        let ghost here = sends@[i as int].connection_id@;
        match handles.get_mut(sends[i].connection_id.as_str()) {
            Some(handle) => {
                let command = command2(
                    "NOTICE",
                    sends[i].target.as_str(),
                    sends[i].notice_text.as_str(),
                );
                let ghost c = command@;
                let ghost s0 = handle.sender;
                let _ = handle.sender.send(command);
                proof {
                    lemma_took_one(s0, handle.sender, c);
                }
            },
            None => {},
        }
        proof {
            assert forall|c: Seq<char>| #[trigger] before@.contains_key(c) implies handle_took(
                before@[c],
                handles@[c],
                notices_for(sends@.take(i + 1), c),
            ) by {
                if c == here {
                    let notice = untagged(
                        "NOTICE"@,
                        seq![sends@[i as int].target@, sends@[i as int].notice_text@],
                    );
                    lemma_took_twice(
                        before@[c].sender,
                        middle@[c].sender,
                        handles@[c].sender,
                        notices_for(sends@.take(i as int), c),
                        seq![notice],
                    );
                    assert(notices_for(sends@.take(i as int), c) + seq![notice] =~= notices_for(
                        sends@.take(i + 1),
                        c,
                    ));
                }
            }
            assert(handles@.dom() =~= before@.dom());
        }
        i = i + 1;
    }
    assert(sends@.take(sends@.len() as int) =~= sends@);
}

/// One command more.
pub proof fn lemma_took_one(a: IrcSender, b: IrcSender, c: CommandV)
    requires
        if a.open() {
            b.accepted() == a.accepted().push(c) && b.room == a.room_after() && b.error == a.error
        } else {
            b == a
        },
    ensures
        a.took(b, seq![c]),
{
    if a.open() {
        assert(a.passing(1) == 1);
        assert(a.accepted() + seq![c].take(1) =~= a.accepted().push(c));
    } else {
        assert(a.passing(1) == 0);
        assert(a.accepted() + seq![c].take(0) =~= a.accepted());
    }
}

impl App {
    /// The sender of the active buffer's connection, if it is connected.
    pub fn active_irc_sender(&self) -> (r: Option<&IrcSender>)
        ensures
            match r {
                Some(sender) => self.state.active() matches Some(b)
                    && self.irc_handles@.contains_key(b.connection_id@)
                    && *sender == self.irc_handles@[b.connection_id@].sender,
                None => self.state.active() matches Some(b) ==> !self.irc_handles@.contains_key(
                    b.connection_id@,
                ),
            },
    {
        match self.state.active_buffer() {
            None => None,
            Some(buffer) => match self.irc_handles.get(buffer.connection_id.as_str()) {
                None => None,
                Some(handle) => Some(&handle.sender),
            },
        }
    }

    /// The connection of the active buffer.
    pub fn active_conn_id(&self) -> (r: Option<&str>)
        ensures
            match r {
                Some(id) => self.state.active() matches Some(b) && id@ == b.connection_id@,
                None => self.state.active() is None,
            },
    {
        match self.state.active_buffer() {
            None => None,
            Some(buffer) => Some(buffer.connection_id.as_str()),
        }
    }

    /// Shell input is on exactly while a shell buffer is active.
    pub fn update_shell_input_state(&mut self)
        ensures
            *final(self) == (App { shell_input_active: final(self).shell_input_active, ..*old(self) }),
            final(self).shell_input_active == (old(self).state.active() matches Some(b)
                && b.buffer_type == BufferType::Shell),
    {
        self.shell_input_active = match self.state.active_buffer() {
            None => false,
            Some(buffer) => buffer.buffer_type == BufferType::Shell,
        };
    }

    /// What aliases may refer to in the active buffer.
    pub fn alias_context(&self) -> (r: AliasContext)
        ensures
            match self.state.active() {
                None => r.channel@ == Seq::<char>::empty() && names_server(r, self.state, Seq::empty()),
                Some(b) => r.channel@ == b.name@ && names_server(r, self.state, b.connection_id@),
            },
    {
        let (channel, conn_id) = match self.state.active_buffer() {
            None => (String::new(), String::new()),
            Some(buffer) => (buffer.name.clone(), buffer.connection_id.clone()),
        };
        match self.state.connections.get(conn_id.as_str()) {
            None => AliasContext { channel, nick: String::new(), server: String::new() },
            Some(connection) => AliasContext {
                channel,
                nick: connection.nick.clone(),
                server: connection.label.clone(),
            },
        }
    }

    /// Sends the queued key notices.
    pub fn drain_pending_e2e_sends(&mut self)
        ensures
            *final(self) == (App {
                irc_handles: final(self).irc_handles,
                state: AppState {
                    pending_e2e_sends: final(self).state.pending_e2e_sends,
                    ..old(self).state
                },
                ..*old(self)
            }),
            final(self).state.pending_e2e_sends@ == Seq::<PendingE2eSend>::empty(),
            notices_sent(
                old(self).irc_handles,
                final(self).irc_handles,
                old(self).state.pending_e2e_sends@,
            ),
    {
        let mut sends: Vec<PendingE2eSend> = Vec::new();
        std::mem::swap(&mut sends, &mut self.state.pending_e2e_sends);
        send_notices(&mut self.irc_handles, &sends);
    }
}

/// The nick and the server of an alias context are those of a connection, empty without one.
pub open spec fn names_server(context: AliasContext, state: AppState, conn_id: Seq<char>) -> bool {
    if state.connections@.contains_key(conn_id) {
        context.nick@ == state.connections@[conn_id].nick@ && context.server@
            == state.connections@[conn_id].label@
    } else {
        context.nick@ == Seq::<char>::empty() && context.server@ == Seq::<char>::empty()
    }
}

} // verus!
