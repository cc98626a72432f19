//! Submitted lines: commands, aliases and the typing notifications around them.
use vstd::prelude::*;

use crate::alias::{
    chain, command_line, expand_in, expanded, parse_command, split_chain, values, ParsedCommand, Values,
    MAX_ALIAS_DEPTH,
};
use crate::app::{handle_took, notices_for, App, Clock, TypingConfig};
use crate::e2e_gate::{
    all_off, bot_line, is_cipher, lemma_all_off, E2eRefusal, Gate, GateV, Sealed, CIPHER_MARK,
};
use crate::gated_send::has_cap;
use crate::state::{event_shown, AppState, Buffer, BufferType};
use crate::submit::{
    gate_passed, gated_out, newly_accepted, place_of, plain_handled, what_is_typed_is_what_is_sent,
    Place, PlainRoute, PlainStep, TranslatePolicy,
};
use crate::text::{
    chars_of, concat3, decimal, decimal_seq, lower_seq, opt_text, pieces, same, text_bytes, texts,
    words_seq,
};
use crate::typing::{Draft, Told, Typing, TypingState};
use crate::wire::{
    command1, message_lines, privmsgs, said_to, short_lines_stay_whole, tag_views, untagged, Command,
    CommandV, Tag, TagV, MESSAGE_MAX_BYTES,
};

verus! {

broadcast use vstd::string::group_string_axioms;

/// A built-in command and its other names.
#[derive(Debug)]
pub struct CommandDef {
    pub name: String,
    pub aliases: Vec<String>,
}

/// A built-in command answers to a name.
pub open spec fn answers(def: CommandDef, name: Seq<char>) -> bool {
    def.name@ == name || texts(def.aliases@).contains(name)
}

/// The first built-in command that answers to a name.
pub open spec fn first_answering(registry: Seq<CommandDef>, name: Seq<char>) -> Option<Seq<char>>
    decreases registry.len(),
{
    if registry.len() == 0 {
        None
    } else {
        match first_answering(registry.drop_last(), name) {
            Some(found) => Some(found),
            None => if answers(registry.last(), name) {
                Some(registry.last().name@)
            } else {
                None
            },
        }
    }
}

/// What a command line comes down to.
#[derive(Debug)]
pub enum CommandAction {
    /// Aliases were nested too deep.
    LimitReached,
    /// A command of the log browser.
    Log(String),
    /// The log browser does not know the command.
    LogUnknown,
    /// A script took the line before it was looked at.
    Suppressed,
    /// A built-in command.
    Builtin(String),
    /// An alias, as the lines that it stands for.
    Parts(Vec<String>),
    /// A command of a script.
    Script,
    /// Nobody knows the command.
    Unknown,
}

/// The model of a [`CommandAction`].
pub enum CommandActionV {
    LimitReached,
    Log(Seq<char>),
    LogUnknown,
    Suppressed,
    Builtin(Seq<char>),
    Parts(Seq<Seq<char>>),
    Script,
    Unknown,
}

impl View for CommandAction {
    type V = CommandActionV;

    open spec fn view(&self) -> CommandActionV {
        match self {
            CommandAction::LimitReached => CommandActionV::LimitReached,
            CommandAction::Log(verb) => CommandActionV::Log(verb@),
            CommandAction::LogUnknown => CommandActionV::LogUnknown,
            CommandAction::Suppressed => CommandActionV::Suppressed,
            CommandAction::Builtin(name) => CommandActionV::Builtin(name@),
            CommandAction::Parts(parts) => CommandActionV::Parts(texts(parts@)),
            CommandAction::Script => CommandActionV::Script,
            CommandAction::Unknown => CommandActionV::Unknown,
        }
    }
}

/// The log browser's commands, by their first names.
pub open spec fn log_verb(name: Seq<char>) -> Option<Seq<char>> {
    if name == "search"@ {
        Some("search"@)
    } else if name == "quit"@ || name == "exit"@ {
        Some("quit"@)
    } else if name == "help"@ {
        Some("help"@)
    } else {
        None
    }
}

/// What an alias may refer to in the active buffer.
pub open spec fn alias_values(app: App, args: Seq<Seq<char>>) -> Values {
    let (channel, conn_id) = match app.state.active() {
        Some(b) => (b.name@, b.connection_id@),
        None => (Seq::empty(), Seq::empty()),
    };
    if app.state.connections@.contains_key(conn_id) {
        let c = app.state.connections@[conn_id];
        Values { args, channel, nick: c.nick@, server: c.label@ }
    } else {
        Values { args, channel, nick: Seq::empty(), server: Seq::empty() }
    }
}

/// What a command line comes down to. `suppressed` says that a script took it first, `scripted`
/// that a script has a command of that name.
pub open spec fn command_action(
    app: App,
    name: Seq<char>,
    args: Seq<Seq<char>>,
    depth: u8,
    registry: Seq<CommandDef>,
    suppressed: bool,
    scripted: bool,
) -> CommandActionV {
    if depth > MAX_ALIAS_DEPTH {
        CommandActionV::LimitReached
    } else if app.log_browser_mode {
        match log_verb(name) {
            Some(verb) => CommandActionV::Log(verb),
            None => CommandActionV::LogUnknown,
        }
    } else if suppressed {
        CommandActionV::Suppressed
    } else {
        match first_answering(registry, name) {
            Some(found) => CommandActionV::Builtin(found),
            None => if app.config.aliases@.contains_key(name) {
                CommandActionV::Parts(
                    chain(pieces(expanded(app.config.aliases@[name]@, alias_values(app, args)), ';')),
                )
            } else if scripted {
                CommandActionV::Script
            } else {
                CommandActionV::Unknown
            },
        }
    }
}

/// The line that a command shows by itself.
pub open spec fn command_notice(action: CommandActionV, name: Seq<char>) -> Option<Seq<char>> {
    match action {
        CommandActionV::LimitReached => Some(
            "Alias recursion limit reached (max "@ + decimal_seq(MAX_ALIAS_DEPTH as nat) + ")"@,
        ),
        CommandActionV::LogUnknown => Some(
            "log mode: only /search, /quit, /help (got /"@ + name + ")"@,
        ),
        CommandActionV::Unknown => Some("Unknown command: /"@ + name + ". Type /help for a list."@),
        _ => None,
    }
}

/// The first built-in command that answers to a name.
fn find_builtin(registry: &Vec<CommandDef>, name: &str) -> (r: Option<String>)
    ensures
        opt_text(r) == first_answering(registry@, name@),
{
    let mut i: usize = 0;
    assert(registry@.take(0) =~= Seq::<CommandDef>::empty());
    while i < registry.len()
        invariant
            i <= registry@.len(),
            first_answering(registry@.take(i as int), name@) is None,
        decreases registry@.len() - i,
    {
        proof {
            assert(registry@.take(i + 1).drop_last() =~= registry@.take(i as int));
            assert(registry@.take(i + 1).last() == registry@[i as int]);
        }
        if same(registry[i].name.as_str(), name) || holds(&registry[i].aliases, name) {
            proof {
                lemma_first_answering(registry@, name@, i + 1);
            }
            return Some(registry[i].name.clone());
        }
        i = i + 1;
    }
    assert(registry@.take(registry@.len() as int) =~= registry@);
    None
}

/// What answers first among some commands answers first among more.
proof fn lemma_first_answering(registry: Seq<CommandDef>, name: Seq<char>, k: int)
    requires
        0 <= k <= registry.len(),
        first_answering(registry.take(k), name) is Some,
    ensures
        first_answering(registry, name) == first_answering(registry.take(k), name),
    decreases registry.len() - k,
{
    if k == registry.len() {
        assert(registry.take(k) =~= registry);
    } else {
        assert(registry.take(k + 1).drop_last() =~= registry.take(k));
        lemma_first_answering(registry, name, k + 1);
    }
}

/// Whether a list holds a text.
pub fn holds(list: &Vec<String>, text: &str) -> (r: bool)
    ensures
        r == texts(list@).contains(text@),
{
    let mut i: usize = 0;
    while i < list.len()
        invariant
            i <= list@.len(),
            forall|j: int| 0 <= j < i ==> texts(list@)[j] != text@,
        decreases list@.len() - i,
    {
        if same(list[i].as_str(), text) {
            assert(texts(list@)[i as int] == text@);
            return true;
        }
        i = i + 1;
    }
    false
}

/// What became of a submitted line.
#[derive(Debug)]
pub enum SubmitStep {
    /// It is a command, still to be executed.
    Command(ParsedCommand),
    /// The log browser takes commands only.
    Rejected,
    /// It is a message.
    Plain(PlainStep),
}

/// What becomes of a submitted line.
pub open spec fn submitted(
    before: App,
    after: App,
    text: Seq<char>,
    policy: TranslatePolicy,
    has_links: bool,
    sealed: Sealed,
    now: Clock,
    r: SubmitStep,
) -> bool {
    if command_line(text) {
        &&& after == (App { scroll_offset: 0, ..before })
        &&& r matches SubmitStep::Command(p) && p.name@ == lower_seq(words_seq(text.skip(1))[0]) && texts(
            p.args@,
        ) == words_seq(text.skip(1)).skip(1)
    } else if before.log_browser_mode {
        &&& r is Rejected
        &&& after == (App { state: after.state, scroll_offset: 0, ..before })
        &&& event_shown(
            before.state,
            after.state,
            "log mode: only slash commands. /help"@,
            now.utc_ms,
        )
    } else {
        exists|middle: App, step: PlainStep|
            {
                &&& #[trigger] plain_handled(
                    before,
                    middle,
                    text,
                    policy,
                    has_links,
                    sealed,
                    now,
                    step,
                )
                &&& after == (App { scroll_offset: 0, ..middle })
                &&& r == SubmitStep::Plain(step)
            }
    }
}

/// A message of a submit reached the wire.
pub open spec fn reached(r: SubmitStep) -> bool {
    r == SubmitStep::Plain(PlainStep::Done(true))
}

/// Whether a draft is to be announced: it is a message in the making.
pub open spec fn announces(text: Seq<char>) -> bool {
    text.len() > 0 && text[0] != '/'
}

/// Whether a draft is to be announced.
fn should_type(text: &str) -> (r: bool)
    ensures
        r == announces(text@),
{
    let v = chars_of(text);
    v.len() > 0 && v[0] != '/'
}

/// The announcement of a typing state to a target.
pub open spec fn typing_command(target: Seq<char>, state: TypingState) -> CommandV {
    CommandV {
        tags: seq![
            TagV {
                key: "+typing"@,
                value: Some(
                    match state {
                        TypingState::Active => "active"@,
                        TypingState::Paused => "paused"@,
                        TypingState::Done => "done"@,
                    },
                ),
            },
        ],
        verb: "TAGMSG"@,
        params: seq![target],
    }
}

/// Whether the configuration lets a kind of buffer be told of typing.
pub open spec fn typing_allowed(config: TypingConfig, buffer_type: BufferType) -> bool {
    (buffer_type == BufferType::Channel && config.send_channels) || (buffer_type == BufferType::Query
        && config.send_queries)
}

impl App {
    /// Executes one command line, as far as that is decided here: shows what a command shows by
    /// itself, and tells what is to be done.
    pub fn execute_command_with_depth(
        &mut self,
        parsed: &ParsedCommand,
        depth: u8,
        registry: &Vec<CommandDef>,
        suppressed: bool,
        scripted: bool,
        now: Clock,
    ) -> (r: CommandAction)
        ensures
            r@ == command_action(
                *old(self),
                parsed.name@,
                texts(parsed.args@),
                depth,
                registry@,
                suppressed,
                scripted,
            ),
            *final(self) == (App { state: final(self).state, ..*old(self) }),
            match command_notice(r@, parsed.name@) {
                Some(line) => event_shown(old(self).state, final(self).state, line, now.utc_ms),
                None => final(self).state == old(self).state,
            },
    {
        let name = parsed.name.as_str();
        if depth > MAX_ALIAS_DEPTH {
            let line = concat3(
                "Alias recursion limit reached (max ",
                decimal(MAX_ALIAS_DEPTH as u64).as_str(),
                ")",
            );
            self.state.add_local_event(line, now.utc_ms);
            return CommandAction::LimitReached;
        }
        if self.log_browser_mode {
            if same(name, "search") {
                return CommandAction::Log("search".to_string());
            }
            if same(name, "quit") || same(name, "exit") {
                return CommandAction::Log("quit".to_string());
            }
            if same(name, "help") {
                return CommandAction::Log("help".to_string());
            }
            let line = concat3("log mode: only /search, /quit, /help (got /", name, ")");
            self.state.add_local_event(line, now.utc_ms);
            return CommandAction::LogUnknown;
        }
        if suppressed {
            return CommandAction::Suppressed;
        }
        match find_builtin(registry, name) {
            Some(found) => {
                return CommandAction::Builtin(found);
            },
            None => {},
        }
        match self.config.aliases.get(name) {
            Some(template) => {
                let context = self.alias_context();
                let line = expand_in(template.as_str(), &parsed.args, &context);
                assert(values(parsed.args@, context) == alias_values(*old(self), texts(parsed.args@)));
                return CommandAction::Parts(split_chain(line.as_str()));
            },
            None => {},
        }
        if scripted {
            return CommandAction::Script;
        }
        let line = concat3("Unknown command: /", name, ". Type /help for a list.");
        self.state.add_local_event(line, now.utc_ms);
        CommandAction::Unknown
    }

    /// The context under which the cipher is to be asked about a submitted line, before it is handled:
    /// asking may rotate keys, so it is done only for a message that is to be encrypted and whose
    /// connection is there.
    pub open spec fn sealed_under(&self, text: Seq<char>, policy: TranslatePolicy, has_links: bool) -> Option<
        Seq<char>,
    > {
        if command_line(text) || self.log_browser_mode || self.route(text, policy, has_links)
            != PlainRoute::Send {
            None
        } else {
            let b = self.state.active()->0;
            match self.state.gate(self.state.active_buffer_id->0@, b.name@, b.buffer_type, text, None) {
                GateV::Encrypt(context) => Some(context),
                _ => None,
            }
        }
    }

    /// Tells under which context the cipher is to be asked about a submitted line, if it is.
    pub fn seal_context(&self, text: &str, policy: &TranslatePolicy, has_links: bool) -> (r: Option<String>)
        ensures
            opt_text(r) == self.sealed_under(text@, *policy, has_links),
    {
        if parse_command(text).is_some() || self.log_browser_mode {
            return None;
        }
        match self.plain_route(text, policy, has_links) {
            PlainRoute::Send => {},
            _ => {
                return None;
            },
        }
        match (self.state.active_buffer(), &self.state.active_buffer_id) {
            (Some(b), Some(id)) => match self.state.e2e_gate(
                id.as_str(),
                b.name.as_str(),
                b.buffer_type,
                text,
                None,
            ) {
                Gate::Encrypt(context) => Some(context),
                _ => None,
            },
            _ => None,
        }
    }

    /// Handles a submitted line.
    pub fn handle_submit(
        &mut self,
        text: &str,
        policy: &TranslatePolicy,
        has_links: bool,
        sealed: Sealed,
        now: Clock,
    ) -> (r: SubmitStep)
        ensures
            submitted(*old(self), *final(self), text@, *policy, has_links, sealed, now, r),
    {
        let ghost before = *self;
        let r = match parse_command(text) {
            Some(parsed) => SubmitStep::Command(parsed),
            None => if self.log_browser_mode {
                self.state.add_local_event(
                    "log mode: only slash commands. /help".to_string(),
                    now.utc_ms,
                );
                SubmitStep::Rejected
            } else {
                let step = self.handle_plain_message(text, policy, has_links, sealed, now);
                assert(plain_handled(before, *self, text@, *policy, has_links, sealed, now, step));
                SubmitStep::Plain(step)
            },
        };
        self.scroll_offset = 0;
        r
    }

    /// A submit from the terminal. A message that reached the wire settles the typing debt of the
    /// buffer that it was typed in; anything else leaves it. The terminal's draft is over.
    pub fn submit_from_tui(
        &mut self,
        text: &str,
        policy: &TranslatePolicy,
        has_links: bool,
        sealed: Sealed,
        now: Clock,
    ) -> (r: SubmitStep)
        ensures
            exists|middle: App|
                {
                    &&& #[trigger] submitted(
                        *old(self),
                        middle,
                        text@,
                        *policy,
                        has_links,
                        sealed,
                        now,
                        r,
                    )
                    &&& *final(self) == (App { typing: final(self).typing, ..middle })
                    &&& typing_settled(
                        middle.typing,
                        final(self).typing,
                        opt_text(old(self).state.active_buffer_id),
                        reached(r),
                        now,
                    )
                    &&& final(self).typing.web == middle.typing.web
                    &&& idle_draft(final(self).typing.tui, opt_text(old(self).state.active_buffer_id))
                },
    {
        let ghost before = *self;
        let typed_in = self.state.active_buffer_id.clone();
        let r = self.handle_submit(text, policy, has_links, sealed, now);
        let ghost middle = *self;
        assert(submitted(before, middle, text@, *policy, has_links, sealed, now, r));
        let sent = match &r {
            SubmitStep::Plain(PlainStep::Done(sent)) => *sent,
            _ => false,
        };
        match &typed_in {
            Some(id) => {
                if sent {
                    self.typing.note_message_sent(id.as_str(), now.mono_ms);
                }
                self.typing.set_tui(Some(id.as_str()), false, now.mono_ms);
            },
            None => {
                self.typing.set_tui(None, false, now.mono_ms);
            },
        }
        r
    }

    /// A submit from a browser session into one of the buffers.
    pub fn submit_from_web(
        &mut self,
        session: &str,
        buffer_id: &str,
        text: &str,
        policy: &TranslatePolicy,
        has_links: bool,
        sealed: Sealed,
        now: Clock,
    ) -> (r: SubmitStep)
        ensures
            exists|start: App, middle: App|
                {
                    &&& start == (App {
                        state: AppState {
                            active_buffer_id: start.state.active_buffer_id,
                            ..old(self).state
                        },
                        ..*old(self)
                    })
                    &&& opt_text(start.state.active_buffer_id) == Some(buffer_id@)
                    &&& #[trigger] submitted(start, middle, text@, *policy, has_links, sealed, now, r)
                    &&& *final(self) == (App {
                        typing: final(self).typing,
                        state: AppState {
                            active_buffer_id: if opt_text(middle.state.active_buffer_id) == Some(
                                buffer_id@,
                            ) {
                                old(self).state.active_buffer_id
                            } else {
                                middle.state.active_buffer_id
                            },
                            ..middle.state
                        },
                        ..middle
                    })
                    &&& typing_settled(
                        middle.typing,
                        final(self).typing,
                        Some(buffer_id@),
                        reached(r),
                        now,
                    )
                    &&& final(self).typing.tui == middle.typing.tui
                    &&& final(self).typing.web@ == middle.typing.web@.insert(
                        session@,
                        final(self).typing.web@[session@],
                    )
                    &&& idle_draft(Some(final(self).typing.web@[session@]), Some(buffer_id@))
                },
    {
        let mut prior = Some(buffer_id.to_string());
        std::mem::swap(&mut prior, &mut self.state.active_buffer_id);
        let ghost start = *self;
        let r = self.handle_submit(text, policy, has_links, sealed, now);
        let ghost middle = *self;
        assert(submitted(start, middle, text@, *policy, has_links, sealed, now, r));
        let moved = match &self.state.active_buffer_id {
            Some(id) => !same(id.as_str(), buffer_id),
            None => true,
        };
        if !moved {
            self.state.active_buffer_id = prior;
        }
        let sent = match &r {
            SubmitStep::Plain(PlainStep::Done(sent)) => *sent,
            _ => false,
        };
        if sent {
            self.typing.note_message_sent(buffer_id, now.mono_ms);
        }
        self.typing.set_web(session, buffer_id, false, now.mono_ms);
        r
    }

    /// A browser session types, or stopped typing, in a buffer.
    pub fn on_web_typing(&mut self, session: &str, buffer_id: &str, active: bool, now: Clock)
        ensures
            *final(self) == (App { typing: final(self).typing, ..*old(self) }),
            final(self).typing == (Typing { web: final(self).typing.web, ..old(self).typing }),
            final(self).typing.web@ == old(self).typing.web@.insert(
                session@,
                final(self).typing.web@[session@],
            ),
            final(self).typing.web@[session@].buffer_id@ == buffer_id@,
            final(self).typing.web@[session@].active == active,
            final(self).typing.web@[session@].at == now.mono_ms,
    {
        self.typing.set_web(session, buffer_id, active, now.mono_ms);
    }

    /// The terminal's draft follows the active buffer.
    pub fn sync_tui_typing_source(&mut self, now: Clock)
        ensures
            *final(self) == (App { typing: final(self).typing, ..*old(self) }),
            final(self).typing == (Typing { tui: final(self).typing.tui, ..old(self).typing }),
            match old(self).typing.tui {
                None => final(self).typing.tui is None,
                Some(draft) => match old(self).state.active_buffer_id {
                    None => final(self).typing.tui is None,
                    Some(b) => if b@ == draft.buffer_id@ {
                        final(self).typing.tui == old(self).typing.tui
                    } else {
                        final(self).typing.tui matches Some(moved) && moved.buffer_id@ == b@
                            && moved.active == draft.active && moved.at == now.mono_ms
                    },
                },
            },
    {
        let active = match &self.state.active_buffer_id {
            Some(id) => Some(id.as_str()),
            None => None,
        };
        self.typing.follow(active, now.mono_ms);
    }

    /// Whether peers of a buffer may be told of typing now.
    pub open spec fn typing_target(&self, b: Buffer) -> bool {
        &&& typing_allowed(self.config.typing, b.buffer_type)
        &&& self.irc_handles@.contains_key(b.connection_id@)
        &&& has_cap(self.state, b.connection_id@, "message-tags"@)
    }

    /// Tells the peers of a buffer about typing, where they are to be told. A failed send tells
    /// nothing.
    pub fn send_typing(&mut self, buffer_id: &str, state: TypingState, now: Clock)
        ensures
            final(self).irc_handles.keys() == old(self).irc_handles.keys(),
            typing_told(*old(self), *final(self), buffer_id@, state, now),
    {
        let ghost before = *self;
        let (conn_id, name) = match self.state.buffers.get(buffer_id) {
            None => {
                return;
            },
            Some(b) => {
                let allowed = (b.buffer_type == BufferType::Channel && self.config.typing.send_channels)
                    || (b.buffer_type == BufferType::Query && self.config.typing.send_queries);
                if !allowed {
                    return;
                }
                (b.connection_id.clone(), b.name.clone())
            },
        };
        let tags = match self.state.connections.get(conn_id.as_str()) {
            Some(c) => c.enabled_caps.contains("message-tags"),
            None => false,
        };
        if !tags {
            return;
        }
        let word = match state {
            TypingState::Active => "active",
            TypingState::Paused => "paused",
            TypingState::Done => "done",
        };
        let mut command = command1("TAGMSG", name.as_str());
        assert(tag_views(command.tags@).len() == command.tags@.len());
        command.tags.push(Tag { key: "+typing".to_string(), value: Some(word.to_string()) });
        assert(tag_views(command.tags@) =~= typing_command(name@, state).tags);
        let ghost c = command@;
        assert(c == typing_command(name@, state));
        let sent = match self.irc_handles.get_mut(conn_id.as_str()) {
            None => false,
            Some(handle) => {
                let ghost s0 = handle.sender;
                let ok = handle.sender.send(command).is_ok();
                proof {
                    crate::app::lemma_took_one(s0, handle.sender, c);
                }
                ok
            },
        };
        if sent {
            self.typing.confirm_sent(buffer_id, state, now.mono_ms);
        } else {
            assert(self.irc_handles@ =~= before.irc_handles@);
        }
    }

    /// The terminal's input line changed: its draft belongs to the active buffer, whose peers are
    /// told at once where that is due.
    pub fn on_input_changed(&mut self, now: Clock)
        ensures
            input_announced(*old(self), *final(self), now),
    {
        let active = self.state.active_buffer_id.clone();
        match active {
            None => {
                self.typing.set_tui(None, false, now.mono_ms);
            },
            Some(id) => {
                let typing = should_type(self.input.as_str());
                let allowed = self.typing.announcement_allowed(id.as_str(), now.mono_ms);
                self.typing.set_tui(Some(id.as_str()), typing, now.mono_ms);
                if typing && allowed {
                    self.send_typing(id.as_str(), TypingState::Active, now);
                }
            },
        }
    }

    /// Takes over new typing settings: buffers that are not told any more are forgotten, so that
    /// nothing is owed to them.
    pub fn apply_typing_config(&mut self, typing: TypingConfig)
        ensures
            final(self).config == (crate::app::Config { typing, ..old(self).config }),
            *final(self) == (App {
                config: final(self).config,
                typing: final(self).typing,
                ..*old(self)
            }),
            final(self).typing == (Typing { told: final(self).typing.told, ..old(self).typing }),
            forall|k: Seq<char>| #[trigger]
                final(self).typing.told@.contains_key(k) <==> old(self).typing.told@.contains_key(k)
                    && old(self).state.buffers@.contains_key(k) && typing_allowed(
                    typing,
                    old(self).state.buffers@[k].buffer_type,
                ),
            forall|k: Seq<char>| #[trigger]
                final(self).typing.told@.contains_key(k) ==> final(self).typing.told@[k]
                    == old(self).typing.told@[k],
    {
        self.config.typing = typing;
        let ghost before = *self;
        let mut stale: Vec<String> = Vec::new();
        let n: usize = self.typing.told.len();
        let mut i: usize = 0;
        let ghost keys = self.typing.told.keys();
        while i < n
            invariant
                n == keys.len(),
                keys == self.typing.told.keys(),
                i <= n,
                *self == before,
                typing == before.config.typing,
                forall|j: int|
                    0 <= j < stale@.len() ==> {
                        let k = (#[trigger] stale@[j])@;
                        !(before.state.buffers@.contains_key(k) && typing_allowed(
                            typing,
                            before.state.buffers@[k].buffer_type,
                        ))
                    },
                forall|j: int|
                    0 <= j < i ==> {
                        let k = #[trigger] keys[j];
                        (before.state.buffers@.contains_key(k) && typing_allowed(
                            typing,
                            before.state.buffers@[k].buffer_type,
                        )) || texts(stale@).contains(k)
                    },
            decreases n - i,
        {
            let key = self.typing.told.key_at(i);
            let keep = match self.state.buffers.get(key.as_str()) {
                None => false,
                Some(b) => (b.buffer_type == BufferType::Channel && typing.send_channels)
                    || (b.buffer_type == BufferType::Query && typing.send_queries),
            };
            let ghost was = texts(stale@);
            if !keep {
                let ghost k = key@;
                stale.push(key.clone());
                proof {
                    assert(texts(stale@) =~= was.push(k));
                    assert(texts(stale@)[was.len() as int] == k);
                    assert forall|x: Seq<char>| was.contains(x) implies texts(stale@).contains(x) by {
                        let a = was.index_of(x);
                        assert(texts(stale@)[a] == x);
                    }
                }
            }
            i = i + 1;
        }
        let m: usize = stale.len();
        let mut j: usize = 0;
        while j < m
            invariant
                m == stale@.len(),
                j <= m,
                *self == (App { typing: self.typing, ..before }),
                self.typing == (Typing { told: self.typing.told, ..before.typing }),
                forall|k: Seq<char>| #[trigger]
                    self.typing.told@.contains_key(k) <==> before.typing.told@.contains_key(k) && !texts(
                        stale@.take(j as int),
                    ).contains(k),
                forall|k: Seq<char>| #[trigger]
                    self.typing.told@.contains_key(k) ==> self.typing.told@[k] == before.typing.told@[k],
            decreases m - j,
        {
            self.typing.forget(stale[j].as_str());
            proof {
                let now_gone = texts(stale@.take(j + 1));
                let was_gone = texts(stale@.take(j as int));
                assert(now_gone =~= was_gone.push(stale@[j as int]@));
                assert forall|k: Seq<char>| #[trigger] now_gone.contains(k) <==> was_gone.contains(k) || k
                    == stale@[j as int]@ by {
                    if was_gone.contains(k) {
                        let a = was_gone.index_of(k);
                        assert(now_gone[a] == k);
                    }
                    if k == stale@[j as int]@ {
                        assert(now_gone[j as int] == k);
                    }
                }
            }
            j = j + 1;
        }
        proof {
            assert(stale@.take(m as int) =~= stale@);
            assert forall|k: Seq<char>| #[trigger] self.typing.told@.contains_key(k) <==> old(
                self,
            ).typing.told@.contains_key(k) && old(self).state.buffers@.contains_key(k) && typing_allowed(
                typing,
                old(self).state.buffers@[k].buffer_type,
            ) by {
                if texts(stale@).contains(k) {
                    let a = texts(stale@).index_of(k);
                    assert(stale@[a]@ == k);
                }
                if before.typing.told@.contains_key(k) {
                    let a = keys.index_of(k);
                    assert(keys[a] == k);
                }
            }
        }
    }
}

/// The peers of a buffer were told about typing, where they are to be told and could be.
pub open spec fn typing_told(before: App, after: App, buffer_id: Seq<char>, state: TypingState, now: Clock) -> bool {
    let told = before.state.buffers@.contains_key(buffer_id) && ({
        let b = before.state.buffers@[buffer_id];
        before.typing_target(b) && before.irc_handles@[b.connection_id@].sender.open()
    });
    if told {
        let b = before.state.buffers@[buffer_id];
        &&& after == (App {
            irc_handles: after.irc_handles,
            typing: after.typing,
            ..before
        })
        &&& after.irc_handles@ == before.irc_handles@.insert(
            b.connection_id@,
            after.irc_handles@[b.connection_id@],
        )
        &&& crate::app::handle_took(
            before.irc_handles@[b.connection_id@],
            after.irc_handles@[b.connection_id@],
            seq![typing_command(b.name@, state)],
        )
        &&& after.typing == (Typing {
            told: after.typing.told,
            ..before.typing
        })
        &&& after.typing.told@ == (if state == TypingState::Done {
            before.typing.told@.remove(buffer_id)
        } else {
            before.typing.told@.insert(buffer_id, Told { state, at: now.mono_ms })
        })
    } else {
        &&& after == (App { irc_handles: after.irc_handles, ..before })
        &&& after.irc_handles@ == before.irc_handles@
    }
}

/// The input line changed: its draft belongs to the active buffer, whose peers were told where that was due.
pub open spec fn input_announced(before: App, after: App, now: Clock) -> bool {
    match before.state.active_buffer_id {
        None => after == (App { typing: after.typing, ..before })
            && after.typing.tui is None && after.typing == (Typing {
            tui: None,
            ..before.typing
        }),
        Some(active) => {
            &&& after.typing.tui matches Some(draft) && draft.buffer_id@ == active@
                && draft.active == announces(before.input@) && draft.at == now.mono_ms
            &&& after == (App {
                typing: after.typing,
                irc_handles: after.irc_handles,
                ..before
            })
            &&& after.typing == (Typing {
                tui: after.typing.tui,
                told: after.typing.told,
                ..before.typing
            })
            &&& after.irc_handles.keys() == before.irc_handles.keys()
            &&& ({
                let b = before.state.buffers@[active@];
                let due = announces(before.input@) && before.typing.may_announce(
                    active@,
                    now.mono_ms,
                ) && before.state.buffers@.contains_key(active@) && before.typing_target(b)
                    && before.irc_handles@[b.connection_id@].sender.open();
                if due {
                    &&& after.typing.told@ == before.typing.told@.insert(
                        active@,
                        Told { state: TypingState::Active, at: now.mono_ms },
                    )
                    &&& after.irc_handles@ == before.irc_handles@.insert(
                        b.connection_id@,
                        after.irc_handles@[b.connection_id@],
                    )
                    &&& crate::app::handle_took(
                        before.irc_handles@[b.connection_id@],
                        after.irc_handles@[b.connection_id@],
                        seq![typing_command(b.name@, TypingState::Active)],
                    )
                } else {
                    after.typing.told@ == before.typing.told@
                        && after.irc_handles@ == before.irc_handles@
                }
            })
        },
    }
}

/// A sent message settles the typing debt of its buffer; an unsent one leaves it.
pub open spec fn typing_settled(
    before: Typing,
    after: Typing,
    buffer_id: Option<Seq<char>>,
    sent: bool,
    now: Clock,
) -> bool {
    match buffer_id {
        Some(id) if sent => {
            &&& after.told@ == before.told@.remove(id)
            &&& after.messages@ == before.messages@.insert(id, now.mono_ms)
        },
        _ => after.told == before.told && after.messages == before.messages,
    }
}

/// The draft of a source that has just submitted.
pub open spec fn idle_draft(draft: Option<Draft>, buffer_id: Option<Seq<char>>) -> bool {
    match (draft, buffer_id) {
        (Some(d), Some(id)) => d.buffer_id@ == id && !d.active,
        (None, None) => true,
        _ => false,
    }
}

/// The lines of an alias that are still to be executed, each with its depth.
pub struct CommandRun {
    pub waiting: Vec<(String, u8)>,
}

/// The models of waiting lines.
pub open spec fn waiting_views(v: Seq<(String, u8)>) -> Seq<(Seq<char>, u8)> {
    v.map_values(|p: (String, u8)| (p.0@, p.1))
}

impl CommandRun {
    /// A run of one line.
    pub fn start(line: &str) -> (r: CommandRun)
        ensures
            waiting_views(r.waiting@) == seq![(line@, 0u8)],
    {
        let mut waiting: Vec<(String, u8)> = Vec::new();
        waiting.push((line.to_string(), 0));
        assert(waiting_views(waiting@) =~= seq![(line@, 0u8)]);
        CommandRun { waiting }
    }

    /// The next line and its depth.
    pub fn next(&mut self) -> (r: Option<(String, u8)>)
        ensures
            match r {
                Some(p) => old(self).waiting@.len() > 0 && p == old(self).waiting@[0]
                    && final(self).waiting@ == old(self).waiting@.skip(1),
                None => old(self).waiting@.len() == 0 && *final(self) == *old(self),
            },
    {
        if self.waiting.len() == 0 {
            None
        } else {
            let ghost was = self.waiting@;
            let p = self.waiting.remove(0);
            assert(self.waiting@ =~= was.skip(1));
            Some(p)
        }
    }

    /// Puts the lines of an alias at the front, one level deeper than the line that named it.
    pub fn expand(&mut self, parts: &Vec<String>, depth: u8)
        requires
            depth <= MAX_ALIAS_DEPTH,
        ensures
            waiting_views(final(self).waiting@) == texts(parts@).map_values(
                |t: Seq<char>| (t, (depth + 1) as u8),
            ) + waiting_views(old(self).waiting@),
    {
        let ghost was = waiting_views(self.waiting@);
        let mut fresh: Vec<(String, u8)> = Vec::new();
        let mut i: usize = 0;
        let ghost new = texts(parts@).map_values(|t: Seq<char>| (t, (depth + 1) as u8));
        while i < parts.len()
            invariant
                i <= parts@.len(),
                depth <= MAX_ALIAS_DEPTH,
                new == texts(parts@).map_values(|t: Seq<char>| (t, (depth + 1) as u8)),
                waiting_views(fresh@) =~= new.take(i as int),
            decreases parts@.len() - i,
        {
            let ghost before = waiting_views(fresh@);
            fresh.push((parts[i].clone(), depth + 1));
            assert(waiting_views(fresh@) =~= before.push(new[i as int]));
            i = i + 1;
        }
        let ghost front = waiting_views(fresh@);
        assert(front =~= new);
        fresh.append(&mut self.waiting);
        assert(waiting_views(fresh@) =~= front + was);
        self.waiting = fresh;
    }
}

/// Nested aliases come to an end: a line below the depth limit expands to nothing.
pub proof fn alias_depth_is_bounded(
    app: App,
    name: Seq<char>,
    args: Seq<Seq<char>>,
    depth: u8,
    registry: Seq<CommandDef>,
    suppressed: bool,
    scripted: bool,
)
    requires
        command_action(app, name, args, depth, registry, suppressed, scripted) is Parts,
    ensures
        depth <= MAX_ALIAS_DEPTH,
{
}

/// What the cipher made of a line counts only where it was to be asked: whatever it is otherwise, the line
/// is handled the same.
pub proof fn cipher_counts_only_where_asked(
    before: App,
    after: App,
    text: Seq<char>,
    policy: TranslatePolicy,
    has_links: bool,
    sealed: Sealed,
    other: Sealed,
    now: Clock,
    r: SubmitStep,
)
    requires
        submitted(before, after, text, policy, has_links, sealed, now, r),
        before.sealed_under(text, policy, has_links) is None,
    ensures
        submitted(before, after, text, policy, has_links, other, now, r),
{
    if !command_line(text) && !before.log_browser_mode {
        let (middle, step) = choose|middle: App, step: PlainStep|
            {
                &&& #[trigger] plain_handled(before, middle, text, policy, has_links, sealed, now, step)
                &&& after == (App { scroll_offset: 0, ..middle })
                &&& r == SubmitStep::Plain(step)
            };
        if before.route(text, policy, has_links) == PlainRoute::Send {
            let (place, sent) = choose|place: Place, sent: bool|
                {
                    &&& place_of(place, before.state.active_buffer_id->0@, before.state.active()->0)
                    &&& #[trigger] gated_out(before, middle, place, text, None, sealed, now, sent)
                    &&& step == PlainStep::Done(sent)
                };
            let (state, out) = choose|
                state: AppState,
                out: Result<(Vec<String>, String), E2eRefusal>,
            |
                gate_passed(before, middle, place, text, None, sealed, now, sent, state, out);
            assert(gate_passed(
                before,
                middle,
                place,
                text,
                None,
                other,
                now,
                sent,
                state,
                out,
            ));
            assert(gated_out(before, middle, place, text, None, other, now, sent));
        }
        assert(plain_handled(before, middle, text, policy, has_links, other, now, step));
    }
}

/// A line that is typed into a channel or a query reaches it. Where nothing was turned on for the conversation,
/// nothing is to be translated and no link to be shortened, any line that does not begin with a slash is sent:
/// what the connection accepts says the line to the conversation and to nobody else. One line that fits goes
/// out as one message, and the buffer shows it once: now, unless the server will echo it.
pub proof fn typed_lines_reach_their_conversation(
    before: App,
    after: App,
    text: Seq<char>,
    sealed: Sealed,
    now: Clock,
    r: SubmitStep,
    id: Seq<char>,
)
    requires
        submitted(before, after, text, TranslatePolicy::NotApplicable, false, sealed, now, r),
        !before.log_browser_mode,
        text.len() == 0 || text[0] != '/',
        opt_text(before.state.active_buffer_id) == Some(id),
        before.state.buffers@.contains_key(id),
        ({
            let b = before.state.buffers@[id];
            &&& b.buffer_type == BufferType::Channel || b.buffer_type == BufferType::Query
            &&& all_off(before.state, id, b.name@, None)
            &&& before.irc_handles@.contains_key(b.connection_id@)
            &&& before.irc_handles@[b.connection_id@].sender.room is None
            &&& before.state.connections@.contains_key(b.connection_id@)
        }),
        !text.contains('\r'),
    ensures
        ({
            let b = before.state.buffers@[id];
            let s0 = before.irc_handles@[b.connection_id@].sender;
            let s1 = after.irc_handles@[b.connection_id@].sender;
            let new = newly_accepted(s0, s1);
            let short = 0 < text.len() && !text.contains('\n') && text_bytes(text) <= MESSAGE_MAX_BYTES;
            &&& s0.accepted().is_prefix_of(s1.accepted())
            &&& said_to(new, b.name@) == text.filter(|c: char| c != '\n')
            &&& forall|i: int|
                0 <= i < new.len() && (#[trigger] new[i]).verb == "PRIVMSG"@ ==> new[i].params[0] == b.name@
            &&& short ==> r == SubmitStep::Plain(PlainStep::Done(true)) && new.len() > 0 && new[0] == untagged(
                "PRIVMSG"@,
                seq![b.name@, text],
            )
            &&& short && !CIPHER_MARK@.is_prefix_of(text) && !(b.buffer_type == BufferType::Channel && bot_line(text))
                ==> {
                let m0 = b.messages@;
                let m1 = after.state.buffers@[id].messages@;
                if before.state.connections@[b.connection_id@].enabled_caps@.contains("echo-message"@) {
                    m1 == m0
                } else {
                    &&& m1.len() == m0.len() + 1
                    &&& m1.last().text@ == text
                    &&& opt_text(m1.last().nick) == Some(before.state.connections@[b.connection_id@].nick@)
                }
            }
        }),
{
    let policy = TranslatePolicy::NotApplicable;
    let b = before.state.buffers@[id];
    let conn = b.connection_id@;
    let (middle, step) = choose|middle: App, step: PlainStep|
        {
            &&& #[trigger] plain_handled(before, middle, text, policy, false, sealed, now, step)
            &&& after == (App { scroll_offset: 0, ..middle })
            &&& r == SubmitStep::Plain(step)
        };
    assert(before.route(text, policy, false) == PlainRoute::Send);
    let (place, sent) = choose|place: Place, sent: bool|
        {
            &&& place_of(place, before.state.active_buffer_id->0@, before.state.active()->0)
            &&& #[trigger] gated_out(before, middle, place, text, None, sealed, now, sent)
            &&& step == PlainStep::Done(sent)
        };
    lemma_all_off(before.state, id, b.name@, b.buffer_type, text, None);
    what_is_typed_is_what_is_sent(before, middle, place, text, None, sealed, now, sent);
    if 0 < text.len() && !text.contains('\n') && text_bytes(text) <= MESSAGE_MAX_BYTES {
        let (state, out) = choose|state: AppState, out: Result<(Vec<String>, String), E2eRefusal>|
            #[trigger] gate_passed(before, middle, place, text, None, sealed, now, sent, state, out);
        let start = App { state, ..before };
        let lines = message_lines(text, MESSAGE_MAX_BYTES as nat);
        short_lines_stay_whole(text, MESSAGE_MAX_BYTES as nat);
        let notices = notices_for(state.pending_e2e_sends@, conn);
        let all = privmsgs(b.name@, lines) + notices;
        assert(start.irc_handles@.contains_key(conn));
        assert(handle_took(start.irc_handles@[conn], middle.irc_handles@[conn], all));
        assert(all.take(all.len() as int) =~= all);
        let s0 = before.irc_handles@[conn].sender;
        let s1 = after.irc_handles@[conn].sender;
        assert(newly_accepted(s0, s1) =~= all);
        assert(all[0] == privmsgs(b.name@, lines)[0]);
        if !CIPHER_MARK@.is_prefix_of(text) && !(b.buffer_type == BufferType::Channel && bot_line(text)) {
            assert(state == before.state);
            assert(lines[0] == text);
            assert(!is_cipher(lines));
            if !has_cap(before.state, conn, "echo-message"@) {
                let m1 = after.state.buffers@[id].messages@;
                let n = b.messages@.len() as int;
                assert(m1[n + 0] == m1.last());
            }
        }
    }
}

/// What a command line asks for goes to no server by itself, and a line that does not begin with a slash is
/// never taken for a command.
pub proof fn commands_are_not_said(
    before: App,
    after: App,
    text: Seq<char>,
    policy: TranslatePolicy,
    has_links: bool,
    sealed: Sealed,
    now: Clock,
    r: SubmitStep,
)
    requires
        submitted(before, after, text, policy, has_links, sealed, now, r),
    ensures
        r is Command ==> text.len() > 1 && text[0] == '/' && after.irc_handles == before.irc_handles
            && after.dcc_chats == before.dcc_chats && after.state == before.state,
        text.len() == 0 || text[0] != '/' ==> r !is Command,
{
}

/// Peers learn that somebody writes. As soon as the input line holds a message in the making, not a command, the
/// peers of the active channel or query are told `active`, where the settings want that for channels or queries,
/// the server takes such messages, and neither an announcement nor a message went there within three seconds.
/// An empty line or a command tells nobody anything.
pub proof fn peers_learn_of_writing(before: App, after: App, now: Clock, id: Seq<char>)
    requires
        input_announced(before, after, now),
        opt_text(before.state.active_buffer_id) == Some(id),
        before.state.buffers@.contains_key(id),
        before.irc_handles@.contains_key(before.state.buffers@[id].connection_id@),
        before.irc_handles@[before.state.buffers@[id].connection_id@].sender.room is None,
    ensures
        ({
            let b = before.state.buffers@[id];
            let conn = b.connection_id@;
            let s0 = before.irc_handles@[conn].sender.accepted();
            let s1 = after.irc_handles@[conn].sender.accepted();
            let wanted = (b.buffer_type == BufferType::Channel && before.config.typing.send_channels) || (b.buffer_type
                == BufferType::Query && before.config.typing.send_queries);
            let taken = before.state.connections@.contains_key(conn)
                && before.state.connections@[conn].enabled_caps@.contains("message-tags"@);
            let quiet = (before.typing.told@.contains_key(id) ==> now.mono_ms >= before.typing.told@[id].at + 3_000)
                && (before.typing.messages@.contains_key(id) ==> now.mono_ms >= before.typing.messages@[id] + 3_000);
            let message = before.input@.len() > 0 && before.input@[0] != '/';
            if wanted && taken && quiet && message {
                &&& s1 == s0.push(
                    CommandV {
                        tags: seq![TagV { key: "+typing"@, value: Some("active"@) }],
                        verb: "TAGMSG"@,
                        params: seq![b.name@],
                    },
                )
                &&& after.typing.told@.contains_key(id)
            } else {
                &&& s1 == s0
                &&& after.typing.told@ == before.typing.told@
            }
        }),
        after.typing.tui matches Some(draft) && draft.buffer_id@ == id && draft.active == (before.input@.len() > 0
            && before.input@[0] != '/'),
{
    let b = before.state.buffers@[id];
    let one = seq![typing_command(b.name@, TypingState::Active)];
    assert(one.take(1) =~= one);
    let conn = b.connection_id@;
    let s0 = before.irc_handles@[conn].sender.accepted();
    assert(s0 + one =~= s0.push(one[0]));
}

/// What is told about typing goes to the buffer's peers in its own word, and once it is over nothing is left to
/// retract.
pub proof fn typing_is_told_in_its_word(
    before: App,
    after: App,
    id: Seq<char>,
    state: TypingState,
    now: Clock,
)
    requires
        typing_told(before, after, id, state, now),
        before.state.buffers@.contains_key(id),
        ({
            let b = before.state.buffers@[id];
            let conn = b.connection_id@;
            &&& (b.buffer_type == BufferType::Channel && before.config.typing.send_channels) || (b.buffer_type
                == BufferType::Query && before.config.typing.send_queries)
            &&& before.irc_handles@.contains_key(conn)
            &&& before.irc_handles@[conn].sender.room is None
            &&& before.state.connections@.contains_key(conn)
            &&& before.state.connections@[conn].enabled_caps@.contains("message-tags"@)
        }),
    ensures
        ({
            let b = before.state.buffers@[id];
            let s0 = before.irc_handles@[b.connection_id@].sender.accepted();
            let s1 = after.irc_handles@[b.connection_id@].sender.accepted();
            let word = match state {
                TypingState::Active => "active"@,
                TypingState::Paused => "paused"@,
                TypingState::Done => "done"@,
            };
            s1 == s0.push(
                CommandV {
                    tags: seq![TagV { key: "+typing"@, value: Some(word) }],
                    verb: "TAGMSG"@,
                    params: seq![b.name@],
                },
            )
        }),
        after.typing.told@.contains_key(id) <==> state != TypingState::Done,
{
    let b = before.state.buffers@[id];
    let one = seq![typing_command(b.name@, state)];
    assert(one.take(1) =~= one);
    let s0 = before.irc_handles@[b.connection_id@].sender.accepted();
    assert(s0 + one =~= s0.push(one[0]));
}

} // verus!
