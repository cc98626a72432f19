//! What happens to the text that the user submits.
use vstd::prelude::*;

use crate::app::{handle_took, notices_for, App, Clock, IrcHandle};
use crate::collections::StrMap;
use crate::e2e_gate::{gate_applied, is_cipher, refusal_line, E2eRefusal, Sealed, CIPHER_MARK, C_ERR, C_RST};
use crate::gated_send::{has_cap, nick_on};
use crate::multiline::{
    batch_views, batched_text, batches_keep_the_text, frames, lemma_rejoined, line_frame, line_views,
    multiline_frames, needs_lines, needs_multiline, partition, partitioned, reassemble, reassembled,
    BatchLine, BatchLineV,
};
use crate::state::{
    batch_ref_seq, event_shown, lemma_nth_id, lines_shown, nth_id, slot_reserved, AppState, Buffer, BufferType, Connection,
    MessageType, PendingE2eSend,
};
use crate::text::{
    chars_of, concat, concat3, has_char, join_seq, lemma_some_piece, lower, lower_seq, opt_text, pieces,
    separators_part_a_text, slice_text, split, starts_with, strip_prefix, text_bytes, texts,
    unparted_text_is_one_piece,
};
use crate::wire::{
    chunks, chunks_keep_the_text, command_views, cut_line, glued, lemma_chunks_fit, lemma_glued_both,
    lemma_glued_pieces, lemma_said_both, lemma_said_lines, lemma_said_nothing, lemma_short_line,
    lemma_took_nothing, lemma_took_twice, message_lines, messages_keep_the_text, privmsg_v, privmsgs,
    said_to, split_irc_message, untagged, CommandV, IrcSender, MESSAGE_MAX_BYTES,
};

verus! {

broadcast use vstd::string::group_string_axioms;

/// What the translation of outgoing messages asks for in a conversation that is not encrypted.
#[derive(Debug)]
pub enum TranslatePolicy {
    NotApplicable,
    Refuse(String),
    Translate,
}

/// Where a message that was typed into a buffer goes.
#[derive(Clone, Copy, Debug, PartialEq, Eq, Structural)]
pub enum PlainRoute {
    /// There is no active buffer.
    NoBuffer,
    /// The active buffer does not take messages.
    CannotSend,
    /// To the DCC chat of the buffer.
    Dcc,
    /// Nowhere: the connection is gone.
    Unavailable,
    /// Nowhere: it would have to be translated and cannot.
    Untranslatable,
    /// To the translator.
    Translate,
    /// To the link shortener.
    Shrink,
    /// To the policy and on the wire.
    Send,
}

/// A message on its way through the link shortener, with everything that its delivery depends on.
#[derive(Debug)]
pub struct PendingOutgoing {
    pub conn_id: String,
    pub buffer_id: String,
    pub buffer_name: String,
    pub buffer_type: BufferType,
    pub original_text: String,
    pub nick: String,
    pub own_mode: Option<char>,
    pub peer_handle: Option<String>,
}

/// The buffer that something is typed into.
#[derive(Debug)]
pub struct Place {
    pub id: String,
    pub conn_id: String,
    pub name: String,
    pub buffer_type: BufferType,
}

/// A buffer as a place to type into.
pub open spec fn place_of(place: Place, id: Seq<char>, b: Buffer) -> bool {
    &&& place.id@ == id
    &&& place.conn_id@ == b.connection_id@
    &&& place.name@ == b.name@
    &&& place.buffer_type == b.buffer_type
}

/// What became of a message that was typed into a buffer.
#[derive(Debug)]
pub enum PlainStep {
    /// It is done with; `true` where something reached the wire.
    Done(bool),
    /// It is handed to the translator.
    Translate(OutgoingRequest),
    /// It is handed to the link shortener.
    Shrink(PendingOutgoing),
}

/// How a message that the translator sends is shown.
#[derive(Clone, Copy, Debug, PartialEq, Eq, Structural)]
pub enum EchoPlan {
    /// As what is typed into a buffer is.
    BufferInput,
}

/// A message on its way to the translator.
#[derive(Debug)]
pub struct OutgoingRequest {
    pub conn_id: String,
    pub buffer_id: String,
    pub buffer_name: String,
    pub buffer_type: BufferType,
    pub nick: String,
    pub text: String,
    pub is_action: bool,
    pub echo: EchoPlan,
}

/// What became of a message that the translator was offered.
#[derive(Clone, Copy, Debug, PartialEq, Eq, Structural)]
pub enum TranslateOutcome {
    /// The conversation cannot be translated any more: it was closed, or encryption came on.
    Gone,
    /// The translator has it; it holds a place in its buffer.
    Taken(u64),
    Full,
    Closed,
}

/// Whether a queue took a message.
#[derive(Clone, Copy, Debug, PartialEq, Eq, Structural)]
pub enum QueueOutcome {
    Taken,
    Full,
    Closed,
}

/// Whether a kind of buffer takes messages.
pub open spec fn sendable(buffer_type: BufferType) -> bool {
    buffer_type == BufferType::Channel || buffer_type == BufferType::Query || buffer_type
        == BufferType::DccChat
}

impl App {
    /// Whether a message goes to the link shortener.
    pub open spec fn shrinks(&self, text: Seq<char>, has_links: bool) -> bool {
        &&& self.config.shrink_enabled
        &&& self.config.shrink_outgoing
        &&& self.shrink_ready
        &&& !needs_lines(text)
        &&& has_links
    }

    /// Where a message that is typed into the active buffer goes. Where encryption may be on, it goes
    /// neither to the translator nor to the link shortener.
    pub open spec fn route(&self, text: Seq<char>, policy: TranslatePolicy, has_links: bool) -> PlainRoute {
        match self.state.active() {
            None => PlainRoute::NoBuffer,
            Some(b) => if !sendable(b.buffer_type) {
                PlainRoute::CannotSend
            } else if b.buffer_type == BufferType::DccChat {
                PlainRoute::Dcc
            } else if !self.irc_handles@.contains_key(b.connection_id@) {
                PlainRoute::Unavailable
            } else if self.state.possible_for(b.connection_id@, b.name@) {
                PlainRoute::Send
            } else {
                match policy {
                    TranslatePolicy::Refuse(_) => PlainRoute::Untranslatable,
                    TranslatePolicy::Translate => PlainRoute::Translate,
                    TranslatePolicy::NotApplicable => if self.shrinks(text, has_links) {
                        PlainRoute::Shrink
                    } else {
                        PlainRoute::Send
                    },
                }
            },
        }
    }

    /// Whether a connection takes multiline batches.
    pub open spec fn takes_multiline(&self, conn_id: Seq<char>) -> bool {
        &&& self.state.connections@.contains_key(conn_id)
        &&& self.state.connections@[conn_id].multiline is Some
        &&& has_cap(self.state, conn_id, "draft/multiline"@)
        &&& has_cap(self.state, conn_id, "batch"@)
        &&& has_cap(self.state, conn_id, "message-tags"@)
    }

    /// Whether the connection has negotiated multiline limits and all capabilities that batches need.
    pub fn multiline_supported(&self, conn_id: &str) -> (r: bool)
        ensures
            r == self.takes_multiline(conn_id@),
    {
        match self.state.connections.get(conn_id) {
            None => false,
            Some(c) => c.multiline.is_some() && c.enabled_caps.contains("draft/multiline")
                && c.enabled_caps.contains("batch") && c.enabled_caps.contains("message-tags"),
        }
    }

    /// Decides where a message that is typed into the active buffer goes.
    pub fn plain_route(&self, text: &str, policy: &TranslatePolicy, has_links: bool) -> (r: PlainRoute)
        ensures
            r == self.route(text@, *policy, has_links),
    {
        let b = match self.state.active_buffer() {
            None => {
                return PlainRoute::NoBuffer;
            },
            Some(b) => b,
        };
        if b.buffer_type != BufferType::Channel && b.buffer_type != BufferType::Query && b.buffer_type
            != BufferType::DccChat {
            return PlainRoute::CannotSend;
        }
        if b.buffer_type == BufferType::DccChat {
            return PlainRoute::Dcc;
        }
        if !self.irc_handles.contains(b.connection_id.as_str()) {
            return PlainRoute::Unavailable;
        }
        if self.state.e2e_possible_for_target(b.connection_id.as_str(), b.name.as_str()) {
            return PlainRoute::Send;
        }
        match policy {
            TranslatePolicy::Refuse(_) => {
                return PlainRoute::Untranslatable;
            },
            TranslatePolicy::Translate => {
                return PlainRoute::Translate;
            },
            TranslatePolicy::NotApplicable => {},
        }
        if self.config.shrink_enabled && self.config.shrink_outgoing && self.shrink_ready
            && !needs_multiline(text) && has_links {
            PlainRoute::Shrink
        } else {
            PlainRoute::Send
        }
    }
}

/// The number of commands that batches take.
pub open spec fn frame_count(batches: Seq<Seq<BatchLineV>>) -> nat
    decreases batches.len(),
{
    if batches.len() == 0 {
        0
    } else {
        frame_count(batches.drop_last()) + batches.last().len() + 2
    }
}

/// The commands that batches take, with the batch names that follow `counter`.
pub open spec fn all_frames(name: Seq<char>, counter: u64, batches: Seq<Seq<BatchLineV>>) -> Seq<CommandV>
    decreases batches.len(),
{
    if batches.len() == 0 {
        Seq::empty()
    } else {
        all_frames(name, counter, batches.drop_last()) + frames(
            name,
            batch_ref_seq(nth_id(counter, batches.len())),
            batches.last(),
        )
    }
}

proof fn lemma_frame_count(name: Seq<char>, counter: u64, batches: Seq<Seq<BatchLineV>>)
    ensures
        all_frames(name, counter, batches).len() == frame_count(batches),
    decreases batches.len(),
{
    if batches.len() > 0 {
        lemma_frame_count(name, counter, batches.drop_last());
    }
}

/// The first `m` batches were started: all commands of those before went through, and where the
/// `m`th is not the last one, not all of its own.
pub open spec fn started(sender: IrcSender, batches: Seq<Seq<BatchLineV>>, m: nat) -> bool {
    &&& m <= batches.len()
    &&& forall|k: int|
        0 <= k < m ==> sender.passing(#[trigger] frame_count(batches.take(k))) == frame_count(
            batches.take(k),
        )
    &&& m < batches.len() ==> sender.passing(frame_count(batches.take(m as int))) < frame_count(
        batches.take(m as int),
    )
}

/// A stuck connection takes nothing more.
proof fn lemma_took_stuck(a: IrcSender, b: IrcSender, x: Seq<CommandV>, y: Seq<CommandV>)
    requires
        a.took(b, x),
        a.passing(x.len()) < x.len(),
    ensures
        a.took(b, x + y),
{
    let n = a.passing(x.len());
    assert(a.passing((x + y).len()) == n);
    assert((x + y).take(n as int) =~= x.take(n as int));
}

proof fn lemma_frames_prefix(name: Seq<char>, counter: u64, batches: Seq<Seq<BatchLineV>>, k: int)
    requires
        0 <= k <= batches.len(),
    ensures
        all_frames(name, counter, batches.take(k)).is_prefix_of(all_frames(name, counter, batches)),
    decreases batches.len() - k,
{
    if k == batches.len() {
        assert(batches.take(k) =~= batches);
        let all = all_frames(name, counter, batches);
        assert(all.subrange(0, all.len() as int) =~= all);
    } else {
        lemma_frames_prefix(name, counter, batches, k + 1);
        assert(batches.take(k + 1).drop_last() =~= batches.take(k));
        let x = all_frames(name, counter, batches.take(k));
        let y = all_frames(name, counter, batches.take(k + 1));
        let z = all_frames(name, counter, batches);
        assert(x =~= y.subrange(0, x.len() as int));
        assert(y =~= z.subrange(0, y.len() as int));
        assert(x =~= z.subrange(0, x.len() as int));
    }
}

/// A connection took batches up to the first failure.
pub open spec fn batches_taken(
    connections: StrMap<Connection>,
    connections_after: StrMap<Connection>,
    handles: StrMap<IrcHandle>,
    handles_after: StrMap<IrcHandle>,
    conn_id: Seq<char>,
    name: Seq<char>,
    batches: Seq<Seq<BatchLineV>>,
) -> bool {
    let counter = connections@[conn_id].batch_ref_counter;
    let commands = all_frames(name, counter, batches);
    let sender = handles@[conn_id].sender;
    &&& handles_after@ == handles@.insert(conn_id, handles_after@[conn_id])
    &&& handle_took(handles@[conn_id], handles_after@[conn_id], commands)
    &&& exists|m: nat| #[trigger]
        started(sender, batches, m) && connections_after@ == connections@.insert(
            conn_id,
            Connection { batch_ref_counter: nth_id(counter, m), ..connections@[conn_id] },
        )
}

/// Batches were sent up to the first failure.
pub open spec fn batches_sent(
    before: App,
    after: App,
    conn_id: Seq<char>,
    name: Seq<char>,
    batches: Seq<Seq<BatchLineV>>,
) -> bool {
    &&& after == (App {
        state: AppState { connections: after.state.connections, ..before.state },
        irc_handles: after.irc_handles,
        ..before
    })
    &&& batches_taken(
        before.state.connections,
        after.state.connections,
        before.irc_handles,
        after.irc_handles,
        conn_id,
        name,
        batches,
    )
}

/// Sends batches up to the first failure. Tells whether all commands went through, and whether any
/// did.
#[verifier::rlimit(40)]
#[verifier::spinoff_prover]
fn send_batches(
    connections: &mut StrMap<Connection>,
    handles: &mut StrMap<IrcHandle>,
    conn_id: &str,
    name: &str,
    batches: &Vec<Vec<BatchLine>>,
) -> (r: (bool, bool))
    requires
        old(handles)@.contains_key(conn_id@),
        old(connections)@.contains_key(conn_id@),
    ensures
        final(handles).keys() == old(handles).keys(),
        final(connections).keys() == old(connections).keys(),
        batches_taken(
            *old(connections),
            *final(connections),
            *old(handles),
            *final(handles),
            conn_id@,
            name@,
            batch_views(batches@),
        ),
        ({
            let sender = old(handles)@[conn_id@].sender;
            let n = frame_count(batch_views(batches@));
            &&& r.0 == (sender.passing(n) == n)
            &&& r.1 == (sender.passing(n) > 0)
        }),
{
    let ghost c0 = connections@;
    let ghost h0 = handles@;
    let ghost views = batch_views(batches@);
    let ghost counter = c0[conn_id@].batch_ref_counter;
    let ghost s0 = h0[conn_id@].sender;
    let mut i: usize = 0;
    proof {
        assert(views.take(0) =~= Seq::<Seq<BatchLineV>>::empty());
        lemma_took_nothing(s0);
        lemma_nth_id(counter, 0);
        assert(h0 =~= h0.insert(conn_id@, h0[conn_id@]));
        assert(c0 =~= c0.insert(conn_id@, c0[conn_id@]));
        assert(s0.passing(0) == 0);
    }
    while i < batches.len()
        invariant
            i <= batches@.len(),
            c0 == old(connections)@,
            h0 == old(handles)@,
            handles.keys() == old(handles).keys(),
            connections.keys() == old(connections).keys(),
            views == batch_views(batches@),
            views.len() == batches@.len(),
            counter == c0[conn_id@].batch_ref_counter,
            s0 == h0[conn_id@].sender,
            h0.contains_key(conn_id@),
            c0.contains_key(conn_id@),
            handles@ == h0.insert(conn_id@, handles@[conn_id@]),
            handle_took(
                h0[conn_id@],
                handles@[conn_id@],
                all_frames(name@, counter, views.take(i as int)),
            ),
            connections@ == c0.insert(
                conn_id@,
                Connection { batch_ref_counter: nth_id(counter, i as nat), ..c0[conn_id@] },
            ),
            forall|k: int|
                0 <= k <= i ==> s0.passing(#[trigger] frame_count(views.take(k))) == frame_count(
                    views.take(k),
                ),
        decreases batches@.len() - i,
    {
        let batch_ref = match connections.get_mut(conn_id) {
            Some(connection) => connection.next_batch_ref(),
            None => String::new(),
        };
        let commands = multiline_frames(name, batch_ref.as_str(), &batches[i]);
        let ghost part = command_views(commands@);
        let n: usize = commands.len();
        let ghost s1 = handles@[conn_id@].sender;
        proof {
            lemma_nth_id(counter, i as nat);
            assert(views.take(i + 1).drop_last() =~= views.take(i as int));
            assert(views.take(i + 1).last() == line_views(batches@[i as int]@));
            assert(part == frames(name@, batch_ref@, line_views(batches@[i as int]@)));
            lemma_frame_count(name@, counter, views.take(i as int));
            lemma_frame_count(name@, counter, views.take(i + 1));
        }
        let passed: usize = match handles.get_mut(conn_id) {
            Some(handle) => handle.sender.send_all(commands),
            None => 0,
        };
        proof {
            lemma_took_twice(
                s0,
                s1,
                handles@[conn_id@].sender,
                all_frames(name@, counter, views.take(i as int)),
                part,
            );
            assert(handles@ =~= h0.insert(conn_id@, handles@[conn_id@]));
            assert(connections@ =~= c0.insert(
                conn_id@,
                Connection { batch_ref_counter: nth_id(counter, (i + 1) as nat), ..c0[conn_id@] },
            ));
        }
        if passed < n {
            proof {
                let x = all_frames(name@, counter, views.take(i + 1));
                let all = all_frames(name@, counter, views);
                lemma_frames_prefix(name@, counter, views, i + 1);
                lemma_frame_count(name@, counter, views);
                assert(all =~= x + all.skip(x.len() as int));
                lemma_took_stuck(s0, handles@[conn_id@].sender, x, all.skip(x.len() as int));
                assert(started(s0, views, (i + 1) as nat));
            }
            return (false, i > 0 || passed > 0);
        }
        i = i + 1;
    }
    proof {
        assert(views.take(views.len() as int) =~= views);
        lemma_frame_count(name@, counter, views);
        assert(started(s0, views, views.len()));
        if batches@.len() > 0 {
            assert(frame_count(views) > 0);
        }
    }
    (true, batches.len() > 0)
}

/// `s` without its trailing carriage returns.
pub open spec fn trim_cr(s: Seq<char>) -> Seq<char>
    decreases s.len(),
{
    if s.len() > 0 && s.last() == '\r' {
        trim_cr(s.drop_last())
    } else {
        s
    }
}

/// The messages that lines go out as, each line on its own; blank lines are left out.
pub open spec fn separate_lines(lines: Seq<Seq<char>>) -> Seq<Seq<char>>
    decreases lines.len(),
{
    if lines.len() == 0 {
        Seq::empty()
    } else {
        separate_lines(lines.drop_last()) + chunks(trim_cr(lines.last()), MESSAGE_MAX_BYTES as nat)
    }
}

/// The messages that a text of several lines goes out as.
fn line_by_line(text: &str) -> (r: Vec<String>)
    ensures
        texts(r@) == separate_lines(pieces(text@, '\n')),
{
    let lines = split(text, '\n');
    let ghost all = texts(lines@);
    let mut r: Vec<String> = Vec::new();
    let mut i: usize = 0;
    assert(all.take(0) =~= Seq::<Seq<char>>::empty());
    assert(texts(r@) =~= Seq::<Seq<char>>::empty());
    while i < lines.len()
        invariant
            i <= lines@.len(),
            all == texts(lines@),
            texts(r@) == separate_lines(all.take(i as int)),
        decreases lines@.len() - i,
    {
        assert(all.take(i + 1).drop_last() =~= all.take(i as int));
        assert(all.take(i + 1).last() == lines@[i as int]@);
        let v = chars_of(lines[i].as_str());
        let mut n: usize = v.len();
        assert(v@.take(n as int) =~= v@);
        while n > 0 && v[n - 1] == '\r'
            invariant
                n <= v@.len(),
                trim_cr(v@.take(n as int)) == trim_cr(v@),
            decreases n,
        {
            assert(v@.take(n as int).drop_last() =~= v@.take(n - 1));
            n = n - 1;
        }
        let line = slice_text(&v, 0, n);
        assert(line@ =~= v@.take(n as int));
        let ghost before = texts(r@);
        let mut parts = cut_line(line.as_str(), MESSAGE_MAX_BYTES);
        let ghost added = texts(parts@);
        r.append(&mut parts);
        assert(texts(r@) =~= before + added);
        i = i + 1;
    }
    assert(all.take(all.len() as int) =~= all);
    r
}

/// The texts of batches.
pub open spec fn batch_texts(batches: Seq<Seq<BatchLineV>>) -> Seq<Seq<char>> {
    batches.map_values(|b: Seq<BatchLineV>| reassembled(b))
}

/// The plain text as it is shown: in one piece where it fits.
pub open spec fn shown_text(text: Seq<char>) -> Seq<Seq<char>> {
    if text_bytes(text) <= MESSAGE_MAX_BYTES {
        seq![text]
    } else {
        message_lines(text, MESSAGE_MAX_BYTES as nat)
    }
}

/// One connection's sender took commands; nothing else changed among the connections.
pub open spec fn one_took(
    before: StrMap<IrcHandle>,
    after: StrMap<IrcHandle>,
    conn_id: Seq<char>,
    commands: Seq<CommandV>,
) -> bool {
    &&& after@ == before@.insert(conn_id, after@[conn_id])
    &&& handle_took(before@[conn_id], after@[conn_id], commands)
}

/// What is typed goes out in multiline batches.
pub open spec fn sent_in_batches(
    before: App,
    after: App,
    conn_id: Seq<char>,
    name: Seq<char>,
    id: Seq<char>,
    batches: Seq<Seq<BatchLineV>>,
    now: Clock,
    sent: bool,
) -> bool {
    let n = frame_count(batches);
    let sender = before.irc_handles@[conn_id].sender;
    let nick = nick_on(before.state, conn_id);
    &&& sent == (sender.passing(n) > 0)
    &&& exists|middle: App|
        {
            &&& #[trigger] batches_sent(before, middle, conn_id, name, batches)
            &&& after == (App { state: after.state, ..middle })
            &&& if sender.passing(n) < n {
                event_shown(middle.state, after.state, "Failed to send message"@, now.utc_ms)
            } else if has_cap(before.state, conn_id, "echo-message"@) {
                after.state == middle.state
            } else {
                lines_shown(
                    middle.state,
                    after.state,
                    id,
                    MessageType::Message,
                    nick,
                    before.state.prefix_of(id, nick),
                    batch_texts(batches),
                    now.utc_ms,
                )
            }
        }
}

/// What is typed goes out line by line, each line shown once it is sent.
pub open spec fn sent_line_by_line(
    before: App,
    after: App,
    conn_id: Seq<char>,
    name: Seq<char>,
    id: Seq<char>,
    lines: Seq<Seq<char>>,
    now: Clock,
    sent: bool,
) -> bool {
    let n = lines.len();
    let k = before.irc_handles@[conn_id].sender.passing(n);
    let nick = nick_on(before.state, conn_id);
    &&& sent == (k > 0)
    &&& after == (App { state: after.state, irc_handles: after.irc_handles, ..before })
    &&& one_took(before.irc_handles, after.irc_handles, conn_id, privmsgs(name, lines))
    &&& exists|middle: AppState|
        {
            &&& #[trigger] echoed_lines(before.state, middle, conn_id, id, lines.take(k as int), now.utc_ms)
            &&& if k < n {
                event_shown(middle, after.state, "Failed to send message"@, now.utc_ms)
            } else {
                after.state == middle
            }
        }
}

/// Sent lines are shown, unless the server echoes them.
pub open spec fn echoed_lines(
    before: AppState,
    after: AppState,
    conn_id: Seq<char>,
    id: Seq<char>,
    lines: Seq<Seq<char>>,
    now_ms: i64,
) -> bool {
    if has_cap(before, conn_id, "echo-message"@) {
        after == before
    } else {
        lines_shown(
            before,
            after,
            id,
            MessageType::Message,
            nick_on(before, conn_id),
            before.prefix_of(id, nick_on(before, conn_id)),
            lines,
            now_ms,
        )
    }
}

/// What is typed goes out as the policy's lines; after all of them, queued keys follow and the text is
/// shown: always where it is encrypted, else unless the server echoes it.
pub open spec fn sent_whole(
    before: App,
    after: App,
    conn_id: Seq<char>,
    name: Seq<char>,
    id: Seq<char>,
    lines: Seq<Seq<char>>,
    text: Seq<char>,
    now: Clock,
    sent: bool,
) -> bool {
    let n = lines.len();
    let commands = privmsgs(name, lines);
    let k = before.irc_handles@[conn_id].sender.passing(n);
    let pending = before.state.pending_e2e_sends@;
    let nick = nick_on(before.state, conn_id);
    &&& sent == (k > 0)
    &&& after == (App { state: after.state, irc_handles: after.irc_handles, ..before })
    &&& if k < n {
        &&& one_took(before.irc_handles, after.irc_handles, conn_id, commands)
        &&& event_shown(before.state, after.state, "Failed to send message"@, now.utc_ms)
    } else {
        &&& after.irc_handles@.dom() == before.irc_handles@.dom()
        &&& forall|c: Seq<char>| #[trigger]
            before.irc_handles@.contains_key(c) ==> handle_took(
                before.irc_handles@[c],
                after.irc_handles@[c],
                if c == conn_id {
                    commands + notices_for(pending, c)
                } else {
                    notices_for(pending, c)
                },
            )
        &&& after.state.pending_e2e_sends@ == Seq::<PendingE2eSend>::empty()
        &&& ({
            let drained = AppState { pending_e2e_sends: after.state.pending_e2e_sends, ..before.state };
            if is_cipher(lines) {
                lines_shown(
                    drained,
                    after.state,
                    id,
                    MessageType::Message,
                    nick,
                    before.state.prefix_of(id, nick),
                    seq![text],
                    now.utc_ms,
                )
            } else {
                echoed_lines(drained, after.state, conn_id, id, shown_text(text), now.utc_ms)
            }
        })
    }
}

/// What is typed into a buffer goes out in the form that fits it.
pub open spec fn typed_out(
    before: App,
    after: App,
    place: Place,
    lines: Seq<Seq<char>>,
    text: Seq<char>,
    now: Clock,
    sent: bool,
) -> bool {
    let conn_id = place.conn_id@;
    let batches = if before.takes_multiline(conn_id) {
        partitioned(text, before.state.connections@[conn_id].multiline->0)
    } else {
        None
    };
    if !is_cipher(lines) && needs_lines(text) && batches is Some {
        sent_in_batches(before, after, conn_id, place.name@, place.id@, batches->0, now, sent)
    } else if !is_cipher(lines) && text.contains('\n') {
        sent_line_by_line(
            before,
            after,
            conn_id,
            place.name@,
            place.id@,
            separate_lines(pieces(text, '\n')),
            now,
            sent,
        )
    } else {
        sent_whole(before, after, conn_id, place.name@, place.id@, lines, text, now, sent)
    }
}

/// The policy's decision about a typed message is carried out: `middle` is the state after the policy and
/// `r` what it said.
pub open spec fn gate_passed(
    before: App,
    after: App,
    place: Place,
    text: Seq<char>,
    captured: Option<Seq<char>>,
    sealed: Sealed,
    now: Clock,
    sent: bool,
    middle: AppState,
    r: Result<(Vec<String>, String), E2eRefusal>,
) -> bool {
    &&& gate_applied(
        before.state,
        middle,
        place.id@,
        place.name@,
        place.buffer_type,
        text,
        captured,
        sealed,
        now.utc_ms,
        r,
    )
    &&& match r {
        Err(reason) => {
            &&& !sent
            &&& after == (App { state: after.state, ..before })
            &&& event_shown(middle, after.state, refusal_line(reason), now.utc_ms)
        },
        Ok(out) => typed_out(
            (App { state: middle, ..before }),
            after,
            place,
            texts(out.0@),
            out.1@,
            now,
            sent,
        ),
    }
}

/// A message that is typed into a buffer passes the policy and goes out.
pub open spec fn gated_out(
    before: App,
    after: App,
    place: Place,
    text: Seq<char>,
    captured: Option<Seq<char>>,
    sealed: Sealed,
    now: Clock,
    sent: bool,
) -> bool {
    exists|middle: AppState, r: Result<(Vec<String>, String), E2eRefusal>| #[trigger]
        gate_passed(before, after, place, text, captured, sealed, now, sent, middle, r)
}

impl App {
    /// Sends what was typed, in batches.
    fn send_in_batches(
        &mut self,
        conn_id: &str,
        name: &str,
        id: &str,
        batches: &Vec<Vec<BatchLine>>,
        now: Clock,
    ) -> (r: bool)
        requires
            old(self).irc_handles@.contains_key(conn_id@),
            old(self).state.connections@.contains_key(conn_id@),
        ensures
            final(self).irc_handles.keys() == old(self).irc_handles.keys(),
            final(self).state.connections.keys() == old(self).state.connections.keys(),
            sent_in_batches(
                *old(self),
                *final(self),
                conn_id@,
                name@,
                id@,
                batch_views(batches@),
                now,
                r,
            ),
    {
        let ghost before = *self;
        let (nick, own_mode, echo_cap) = self.speaker(conn_id, id);
        let (all, any) = send_batches(
            &mut self.state.connections,
            &mut self.irc_handles,
            conn_id,
            name,
            batches,
        );
        let ghost middle = *self;
        if !all {
            self.state.add_local_event("Failed to send message".to_string(), now.utc_ms);
            assert(batches_sent(before, middle, conn_id@, name@, batch_views(batches@)));
            return any;
        }
        if !echo_cap {
            let mut shown: Vec<String> = Vec::new();
            let mut i: usize = 0;
            let ghost all_texts = batch_texts(batch_views(batches@));
            while i < batches.len()
                invariant
                    i <= batches@.len(),
                    all_texts == batch_texts(batch_views(batches@)),
                    texts(shown@) =~= all_texts.take(i as int),
                decreases batches@.len() - i,
            {
                let ghost was = texts(shown@);
                let text = reassemble(&batches[i]);
                assert(all_texts[i as int] == text@);
                let ghost t = text@;
                shown.push(text);
                assert(texts(shown@) =~= was.push(t));
                i = i + 1;
            }
            assert(all_texts.take(all_texts.len() as int) =~= all_texts);
            let n: usize = shown.len();
            assert(texts(shown@).take(n as int) =~= all_texts);
            self.state.say_lines(
                id,
                MessageType::Message,
                nick.as_str(),
                own_mode,
                &shown,
                n,
                now.utc_ms,
            );
        }
        assert(batches_sent(before, middle, conn_id@, name@, batch_views(batches@)));
        any
    }

    /// The nick that speaks on a connection, its mode in a buffer, and whether the server echoes.
    fn speaker(&self, conn_id: &str, id: &str) -> (r: (String, Option<char>, bool))
        ensures
            r.0@ == nick_on(self.state, conn_id@),
            r.1 == self.state.prefix_of(id@, r.0@),
            r.2 == has_cap(self.state, conn_id@, "echo-message"@),
    {
        let (nick, echo_cap) = match self.state.connections.get(conn_id) {
            Some(c) => (c.nick.clone(), c.enabled_caps.contains("echo-message")),
            None => (String::new(), false),
        };
        let own_mode = self.state.nick_prefix(id, nick.as_str());
        (nick, own_mode, echo_cap)
    }

    /// Sends what was typed, line by line.
    fn send_line_by_line(
        &mut self,
        conn_id: &str,
        name: &str,
        id: &str,
        lines: &Vec<String>,
        now: Clock,
    ) -> (r: bool)
        requires
            old(self).irc_handles@.contains_key(conn_id@),
        ensures
            final(self).irc_handles.keys() == old(self).irc_handles.keys(),
            final(self).state.connections.keys() == old(self).state.connections.keys(),
            sent_line_by_line(
                *old(self),
                *final(self),
                conn_id@,
                name@,
                id@,
                texts(lines@),
                now,
                r,
            ),
    {
        let ghost before = *self;
        let (nick, own_mode, echo_cap) = self.speaker(conn_id, id);
        let n: usize = lines.len();
        let k: usize = match self.irc_handles.get_mut(conn_id) {
            Some(handle) => handle.sender.send_privmsgs(name, lines),
            None => 0,
        };
        assert(texts(lines@).len() == n);
        if !echo_cap {
            self.state.say_lines(id, MessageType::Message, nick.as_str(), own_mode, lines, k, now.utc_ms);
        }
        let ghost middle = self.state;
        assert(echoed_lines(
            before.state,
            middle,
            conn_id@,
            id@,
            texts(lines@).take(k as int),
            now.utc_ms,
        ));
        if k < n {
            self.state.add_local_event("Failed to send message".to_string(), now.utc_ms);
        }
        k > 0
    }

    /// Sends what was typed as the policy's lines.
    fn send_whole(
        &mut self,
        conn_id: &str,
        name: &str,
        id: &str,
        lines: &Vec<String>,
        text: &str,
        now: Clock,
    ) -> (r: bool)
        requires
            old(self).irc_handles@.contains_key(conn_id@),
        ensures
            final(self).irc_handles.keys() == old(self).irc_handles.keys(),
            final(self).state.connections.keys() == old(self).state.connections.keys(),
            sent_whole(
                *old(self),
                *final(self),
                conn_id@,
                name@,
                id@,
                texts(lines@),
                text@,
                now,
                r,
            ),
    {
        let ghost before = *self;
        let ghost commands = privmsgs(name@, texts(lines@));
        let (nick, own_mode, echo_cap) = self.speaker(conn_id, id);
        let n: usize = lines.len();
        let k: usize = match self.irc_handles.get_mut(conn_id) {
            Some(handle) => handle.sender.send_privmsgs(name, lines),
            None => 0,
        };
        assert(texts(lines@).len() == n);
        let ghost after_lines = self.irc_handles;
        if k < n {
            self.state.add_local_event("Failed to send message".to_string(), now.utc_ms);
            return k > 0;
        }
        self.drain_pending_e2e_sends();
        proof {
            assert(self.irc_handles@.dom() =~= before.irc_handles@.dom());
            assert forall|c: Seq<char>| #[trigger] before.irc_handles@.contains_key(c) implies handle_took(
                before.irc_handles@[c],
                self.irc_handles@[c],
                if c == conn_id@ {
                    commands + notices_for(before.state.pending_e2e_sends@, c)
                } else {
                    notices_for(before.state.pending_e2e_sends@, c)
                },
            ) by {
                assert(after_lines@.contains_key(c));
                if c == conn_id@ {
                    lemma_took_twice(
                        before.irc_handles@[c].sender,
                        after_lines@[c].sender,
                        self.irc_handles@[c].sender,
                        commands,
                        notices_for(before.state.pending_e2e_sends@, c),
                    );
                }
            }
        }
        let encrypted = n > 0 && starts_with(lines[0].as_str(), CIPHER_MARK);
        if encrypted {
            let mut one: Vec<String> = Vec::new();
            one.push(text.to_string());
            assert(texts(one@).take(1) =~= seq![text@]);
            self.state.say_lines(
                id,
                MessageType::Message,
                nick.as_str(),
                own_mode,
                &one,
                1,
                now.utc_ms,
            );
        } else if !echo_cap {
            let shown = show_text(text);
            let m: usize = shown.len();
            assert(texts(shown@).take(m as int) =~= texts(shown@));
            self.state.say_lines(
                id,
                MessageType::Message,
                nick.as_str(),
                own_mode,
                &shown,
                m,
                now.utc_ms,
            );
        }
        k > 0
    }

    /// Runs the policy on what was typed into a buffer and sends it.
    pub fn send_typed(
        &mut self,
        place: &Place,
        text: &str,
        captured: Option<&str>,
        sealed: Sealed,
        now: Clock,
    ) -> (r: bool)
        requires
            old(self).irc_handles@.contains_key(place.conn_id@),
        ensures
            final(self).irc_handles.keys() == old(self).irc_handles.keys(),
            final(self).state.connections.keys() == old(self).state.connections.keys(),
            gated_out(
                *old(self),
                *final(self),
                *place,
                text@,
                (match captured {
                    Some(h) => Some(h@),
                    None => None,
                }),
                sealed,
                now,
                r,
            ),
    {
        let ghost before = *self;
        let ghost seal = sealed;
        let ghost handle = match captured {
            Some(h) => Some(h@),
            None => None,
        };
        let result = self.state.e2e_encrypt_or_passthrough(
            place.id.as_str(),
            place.name.as_str(),
            place.buffer_type,
            text,
            captured,
            sealed,
            now.utc_ms,
        );
        let ghost middle = self.state;
        let ghost the_result = result;
        match result {
            Err(reason) => {
                self.state.add_local_event(reason.user_message(), now.utc_ms);
                let sent = false;
                assert(gate_passed(before, *self, *place, text@, handle, seal, now, sent, middle, the_result));
                sent
            },
            Ok((lines, plain)) => {
                let ghost base = *self;
                let encrypted = lines.len() > 0 && starts_with(lines[0].as_str(), CIPHER_MARK);
                assert(encrypted == is_cipher(texts(lines@)));
                let conn_id = place.conn_id.as_str();
                if !encrypted && needs_multiline(plain.as_str()) && self.multiline_supported(conn_id) {
                    let limits = match self.state.connections.get(conn_id) {
                        Some(c) => c.multiline,
                        None => None,
                    };
                    match limits {
                        None => {},
                        Some(limits) => match partition(plain.as_str(), limits) {
                            None => {},
                            Some(batches) => {
                                let sent = self.send_in_batches(
                                    conn_id,
                                    place.name.as_str(),
                                    place.id.as_str(),
                                    &batches,
                                    now,
                                );
                                assert(gate_passed(
                                    before,
                                    *self,
                                    *place,
                                    text@,
                                    handle,
                                    seal,
                                    now,
                                    sent,
                                    middle,
                                    the_result,
                                ));
                                return sent;
                            },
                        },
                    }
                }
                if !encrypted && has_char(plain.as_str(), '\n') {
                    let separate = line_by_line(plain.as_str());
                    let sent = self.send_line_by_line(
                        conn_id,
                        place.name.as_str(),
                        place.id.as_str(),
                        &separate,
                        now,
                    );
                    assert(gate_passed(before, *self, *place, text@, handle, seal, now, sent, middle, the_result));
                    return sent;
                }
                let sent = self.send_whole(
                    conn_id,
                    place.name.as_str(),
                    place.id.as_str(),
                    &lines,
                    plain.as_str(),
                    now,
                );
                assert(gate_passed(before, *self, *place, text@, handle, seal, now, sent, middle, the_result));
                sent
            },
        }
    }
}

/// The plain text as it is shown: in one piece where it fits.
fn show_text(text: &str) -> (r: Vec<String>)
    ensures
        texts(r@) == shown_text(text@),
{
    if text_fits(text) {
        let mut one: Vec<String> = Vec::new();
        one.push(text.to_string());
        assert(texts(one@) =~= seq![text@]);
        one
    } else {
        split_irc_message(text, MESSAGE_MAX_BYTES)
    }
}

/// Whether a text fits into one message.
fn text_fits(text: &str) -> (r: bool)
    ensures
        r == (text_bytes(text@) <= MESSAGE_MAX_BYTES),
{
    let v = chars_of(text);
    let mut bytes: usize = 0;
    let mut i: usize = 0;
    assert(v@.take(0) =~= Seq::<char>::empty());
    while i < v.len()
        invariant
            v@ == text@,
            i <= v@.len(),
            bytes == text_bytes(v@.take(i as int)),
            bytes <= MESSAGE_MAX_BYTES,
        decreases v@.len() - i,
    {
        assert(v@.take(i + 1).drop_last() =~= v@.take(i as int));
        assert(v@.take(i + 1).last() == v@[i as int]);
        bytes = bytes + crate::text::char_len(v[i]);
        i = i + 1;
        if bytes > MESSAGE_MAX_BYTES {
            proof {
                crate::multiline::lemma_bytes_grow(v@, i as int);
            }
            return false;
        }
    }
    assert(v@.take(v@.len() as int) =~= v@);
    true
}

/// The key of a DCC chat: the nick behind the buffer's name.
pub open spec fn dcc_key(name: Seq<char>) -> Seq<char> {
    lower_seq(
        if "="@.is_prefix_of(name) {
            name.skip("="@.len() as int)
        } else {
            name
        },
    )
}

/// The nick of the first connection, empty without any.
pub open spec fn first_nick(state: AppState) -> Seq<char> {
    if state.connections.keys().len() > 0 {
        state.connections@[state.connections.keys()[0]].nick@
    } else {
        Seq::empty()
    }
}

/// What is typed into a DCC chat goes out line by line, each line shown once it is sent.
pub open spec fn dcc_out(
    before: App,
    after: App,
    place: Place,
    text: Seq<char>,
    now: Clock,
    sent: bool,
) -> bool {
    let key = dcc_key(place.name@);
    let lines = pieces(text, '\n');
    if before.dcc_chats@.contains_key(key) {
        let k = before.dcc_chats@[key].passing(lines.len());
        &&& sent == (k > 0)
        &&& after == (App { state: after.state, dcc_chats: after.dcc_chats, ..before })
        &&& after.dcc_chats@ == before.dcc_chats@.insert(key, after.dcc_chats@[key])
        &&& before.dcc_chats@[key].took(after.dcc_chats@[key], lines)
        &&& exists|middle: AppState|
            {
                &&& #[trigger] lines_shown(
                    before.state,
                    middle,
                    place.id@,
                    MessageType::Message,
                    first_nick(before.state),
                    None,
                    lines.take(k as int),
                    now.utc_ms,
                )
                &&& if k < lines.len() {
                    event_shown(
                        middle,
                        after.state,
                        "DCC send error: "@ + before.dcc_chats@[key].error@,
                        now.utc_ms,
                    )
                } else {
                    after.state == middle
                }
            }
    } else {
        &&& !sent
        &&& after == (App { state: after.state, ..before })
        &&& event_shown(
            before.state,
            after.state,
            "No active DCC CHAT session for this buffer"@,
            now.utc_ms,
        )
    }
}

/// The text is handed back to the user with the reason why it was not sent.
pub open spec fn handed_back(before: App, after: App, text: Seq<char>, reason: Seq<char>, now: Clock) -> bool {
    &&& after == (App { state: after.state, input: after.input, ..before })
    &&& after.input@ == text
    &&& event_shown(before.state, after.state, "Message not sent: "@ + reason, now.utc_ms)
}

/// What the translator is told of a message that was typed into a buffer.
pub open spec fn request_of(app: App, q: OutgoingRequest, id: Seq<char>, b: Buffer, text: Seq<char>) -> bool {
    &&& q.conn_id@ == b.connection_id@
    &&& q.buffer_id@ == id
    &&& q.buffer_name@ == b.name@
    &&& q.buffer_type == b.buffer_type
    &&& q.nick@ == nick_on(app.state, b.connection_id@)
    &&& q.text@ == text
    &&& !q.is_action
    &&& q.echo == EchoPlan::BufferInput
}

/// Everything that the delivery of a message by the link shortener depends on.
pub open spec fn pending_of(app: App, p: PendingOutgoing, id: Seq<char>, b: Buffer, text: Seq<char>) -> bool {
    let nick = nick_on(app.state, b.connection_id@);
    &&& p.conn_id@ == b.connection_id@
    &&& p.buffer_id@ == id
    &&& p.buffer_name@ == b.name@
    &&& p.buffer_type == b.buffer_type
    &&& p.original_text@ == text
    &&& p.nick@ == nick
    &&& p.own_mode == app.state.prefix_of(id, nick)
    &&& opt_text(p.peer_handle) == (if b.buffer_type == BufferType::Query {
        match app.state.query_handle(id, b.name@) {
            Ok(h) => h,
            Err(_) => None,
        }
    } else {
        None
    })
}

/// What became of a message that was typed into the active buffer.
pub open spec fn plain_handled(
    before: App,
    after: App,
    text: Seq<char>,
    policy: TranslatePolicy,
    has_links: bool,
    sealed: Sealed,
    now: Clock,
    r: PlainStep,
) -> bool {
    match before.route(text, policy, has_links) {
        PlainRoute::NoBuffer => after == before && r == PlainStep::Done(false),
        PlainRoute::CannotSend => {
            &&& r == PlainStep::Done(false)
            &&& after == (App { state: after.state, ..before })
            &&& event_shown(
                before.state,
                after.state,
                "Cannot send messages to this buffer"@,
                now.utc_ms,
            )
        },
        PlainRoute::Dcc => exists|place: Place, sent: bool|
            {
                &&& place_of(place, before.state.active_buffer_id->0@, before.state.active()->0)
                &&& #[trigger] dcc_out(before, after, place, text, now, sent)
                &&& r == PlainStep::Done(sent)
            },
        PlainRoute::Unavailable => {
            &&& r == PlainStep::Done(false)
            &&& after == (App { state: after.state, ..before })
            &&& event_shown(
                before.state,
                after.state,
                "Failed to send message: connection unavailable"@,
                now.utc_ms,
            )
        },
        PlainRoute::Untranslatable => {
            &&& r == PlainStep::Done(false)
            &&& policy matches TranslatePolicy::Refuse(reason) && handed_back(
                before,
                after,
                text,
                reason@,
                now,
            )
        },
        PlainRoute::Translate => {
            &&& after == before
            &&& r matches PlainStep::Translate(q) && request_of(
                before,
                q,
                before.state.active_buffer_id->0@,
                before.state.active()->0,
                text,
            )
        },
        PlainRoute::Shrink => {
            &&& after == before
            &&& r matches PlainStep::Shrink(p) && pending_of(
                before,
                p,
                before.state.active_buffer_id->0@,
                before.state.active()->0,
                text,
            )
        },
        PlainRoute::Send => exists|place: Place, sent: bool|
            {
                &&& place_of(place, before.state.active_buffer_id->0@, before.state.active()->0)
                &&& #[trigger] gated_out(before, after, place, text, None, sealed, now, sent)
                &&& r == PlainStep::Done(sent)
            },
    }
}

impl App {
    /// Sends what was typed into a DCC chat.
    fn send_dcc(&mut self, place: &Place, text: &str, now: Clock) -> (r: bool)
        ensures
            final(self).irc_handles.keys() == old(self).irc_handles.keys(),
            final(self).state.connections.keys() == old(self).state.connections.keys(),
            dcc_out(*old(self), *final(self), *place, text@, now, r),
    {
        let ghost before = *self;
        let nick = match strip_prefix(place.name.as_str(), "=") {
            Some(nick) => nick,
            None => place.name.clone(),
        };
        let key = lower(nick.as_str());
        let lines = split(text, '\n');
        let n: usize = lines.len();
        let our_nick = if self.state.connections.len() > 0 {
            self.state.connections.value_at(0).nick.clone()
        } else {
            String::new()
        };
        let k: usize = match self.dcc_chats.get_mut(key.as_str()) {
            None => {
                self.state.add_local_event(
                    "No active DCC CHAT session for this buffer".to_string(),
                    now.utc_ms,
                );
                return false;
            },
            Some(chat) => chat.send_lines(&lines),
        };
        assert(texts(lines@).len() == n);
        self.state.say_lines(
            place.id.as_str(),
            MessageType::Message,
            our_nick.as_str(),
            None,
            &lines,
            k,
            now.utc_ms,
        );
        let ghost middle = self.state;
        assert(lines_shown(
            before.state,
            middle,
            place.id@,
            MessageType::Message,
            first_nick(before.state),
            None,
            texts(lines@).take(k as int),
            now.utc_ms,
        ));
        if k < n {
            let text = match self.dcc_chats.get(key.as_str()) {
                Some(chat) => concat("DCC send error: ", chat.error.as_str()),
                None => String::new(),
            };
            self.state.add_local_event(text, now.utc_ms);
        }
        proof {
            let key = dcc_key(place.name@);
            assert(self.dcc_chats@ == before.dcc_chats@.insert(key, self.dcc_chats@[key]));
            assert(before.dcc_chats@[key].took(self.dcc_chats@[key], pieces(text@, '\n')));
            assert(*self == (App { state: self.state, dcc_chats: self.dcc_chats, ..before }));
        }
        k > 0
    }

    /// Hands a text back that must not go out untranslated.
    pub fn refuse_untranslatable_send(&mut self, text: &str, reason: &str, now: Clock) -> (r: bool)
        ensures
            !r,
            handed_back(*old(self), *final(self), text@, reason@, now),
    {
        let line = concat("Message not sent: ", reason);
        self.state.add_local_event(line, now.utc_ms);
        self.input = text.to_string();
        false
    }

    /// Handles a message that was typed into the active buffer. `policy` is what the translation of
    /// outgoing messages asks for, `has_links` whether the text holds links worth shortening, and
    /// `sealed` what the cipher made of the text under the policy's context.
    pub fn handle_plain_message(
        &mut self,
        text: &str,
        policy: &TranslatePolicy,
        has_links: bool,
        sealed: Sealed,
        now: Clock,
    ) -> (r: PlainStep)
        ensures
            final(self).irc_handles.keys() == old(self).irc_handles.keys(),
            final(self).state.connections.keys() == old(self).state.connections.keys(),
            plain_handled(*old(self), *final(self), text@, *policy, has_links, sealed, now, r),
    {
        let ghost before = *self;
        let route = self.plain_route(text, policy, has_links);
        let place = match (self.state.active_buffer(), &self.state.active_buffer_id) {
            (Some(b), Some(id)) => Place {
                id: id.clone(),
                conn_id: b.connection_id.clone(),
                name: b.name.clone(),
                buffer_type: b.buffer_type,
            },
            _ => {
                return PlainStep::Done(false);
            },
        };
        assert(place_of(place, before.state.active_buffer_id->0@, before.state.active()->0));
        match route {
            PlainRoute::NoBuffer => PlainStep::Done(false),
            PlainRoute::CannotSend => {
                self.state.add_local_event(
                    "Cannot send messages to this buffer".to_string(),
                    now.utc_ms,
                );
                PlainStep::Done(false)
            },
            PlainRoute::Dcc => {
                let sent = self.send_dcc(&place, text, now);
                assert(dcc_out(before, *self, place, text@, now, sent));
                PlainStep::Done(sent)
            },
            PlainRoute::Unavailable => {
                self.state.add_local_event(
                    "Failed to send message: connection unavailable".to_string(),
                    now.utc_ms,
                );
                PlainStep::Done(false)
            },
            PlainRoute::Untranslatable => match policy {
                TranslatePolicy::Refuse(reason) => {
                    let sent = self.refuse_untranslatable_send(text, reason.as_str(), now);
                    PlainStep::Done(sent)
                },
                _ => PlainStep::Done(false),
            },
            PlainRoute::Translate => {
                let (nick, _, _) = self.speaker(place.conn_id.as_str(), place.id.as_str());
                PlainStep::Translate(
                    OutgoingRequest {
                        conn_id: place.conn_id,
                        buffer_id: place.id,
                        buffer_name: place.name,
                        buffer_type: place.buffer_type,
                        nick,
                        text: text.to_string(),
                        is_action: false,
                        echo: EchoPlan::BufferInput,
                    },
                )
            },
            PlainRoute::Shrink => {
                let (nick, own_mode, _) = self.speaker(place.conn_id.as_str(), place.id.as_str());
                let peer_handle = if place.buffer_type == BufferType::Query {
                    match self.state.resolve_query_peer_handle(place.id.as_str(), place.name.as_str()) {
                        Ok(h) => h,
                        Err(_) => None,
                    }
                } else {
                    None
                };
                PlainStep::Shrink(
                    PendingOutgoing {
                        conn_id: place.conn_id,
                        buffer_id: place.id,
                        buffer_name: place.name,
                        buffer_type: place.buffer_type,
                        original_text: text.to_string(),
                        nick,
                        own_mode,
                        peer_handle,
                    },
                )
            },
            PlainRoute::Send => {
                let sent = self.send_typed(&place, text, None, sealed, now);
                assert(gated_out(before, *self, place, text@, None, sealed, now, sent));
                PlainStep::Done(sent)
            },
        }
    }

    /// Goes on after the translator was offered a message: one that it took holds its place in the
    /// buffer, and one that it did not take is handed back. Nothing is on the wire yet.
    pub fn translation_queued(&mut self, request: &OutgoingRequest, outcome: TranslateOutcome, now: Clock) -> (r:
        bool)
        ensures
            !r,
            match outcome {
                TranslateOutcome::Gone => handed_back(
                    *old(self),
                    *final(self),
                    request.text@,
                    "this conversation can no longer be translated"@,
                    now,
                ),
                TranslateOutcome::Taken(echo_id) => {
                    &&& *final(self) == (App {
                        state: AppState { echo_slots: final(self).state.echo_slots, ..old(self).state },
                        ..*old(self)
                    })
                    &&& slot_reserved(
                        old(self).state.echo_slots@,
                        final(self).state.echo_slots@,
                        request.buffer_id@,
                        echo_id,
                    )
                },
                TranslateOutcome::Full => handed_back(
                    *old(self),
                    *final(self),
                    request.text@,
                    "the translation queue is full"@,
                    now,
                ),
                TranslateOutcome::Closed => handed_back(
                    *old(self),
                    *final(self),
                    request.text@,
                    "the translation worker has died \u{2014} restart to restore it"@,
                    now,
                ),
            },
    {
        let text = request.text.as_str();
        match outcome {
            TranslateOutcome::Gone => self.refuse_untranslatable_send(
                text,
                "this conversation can no longer be translated",
                now,
            ),
            TranslateOutcome::Taken(echo_id) => {
                self.state.reserve_echo_slot(request.buffer_id.as_str(), echo_id);
                false
            },
            TranslateOutcome::Full => self.refuse_untranslatable_send(
                text,
                "the translation queue is full",
                now,
            ),
            TranslateOutcome::Closed => self.refuse_untranslatable_send(
                text,
                "the translation worker has died \u{2014} restart to restore it",
                now,
            ),
        }
    }

    /// Goes on after the link shortener was offered a message: one that it did not take goes out
    /// with its links as they are.
    pub fn shrink_queued(
        &mut self,
        pending: PendingOutgoing,
        outcome: QueueOutcome,
        sealed: Sealed,
        now: Clock,
    ) -> (r: bool)
        ensures
            final(self).irc_handles.keys() == old(self).irc_handles.keys(),
            final(self).state.connections.keys() == old(self).state.connections.keys(),
            match outcome {
                QueueOutcome::Taken => !r && *final(self) == *old(self),
                _ => exists|middle: App, place: Place|
                    {
                        &&& place.id@ == pending.buffer_id@
                        &&& place.conn_id@ == pending.conn_id@
                        &&& place.name@ == pending.buffer_name@
                        &&& place.buffer_type == pending.buffer_type
                        &&& if outcome == QueueOutcome::Closed {
                            &&& middle == (App { state: middle.state, ..*old(self) })
                            &&& event_shown(
                                old(self).state,
                                middle.state,
                                C_ERR@ + "shrink: outgoing worker has died \u{2014} restart to restore. URLs will not be shortened until then."@
                                    + C_RST@,
                                now.utc_ms,
                            )
                        } else {
                            middle == *old(self)
                        }
                        &&& #[trigger] unshrunk_out(
                            middle,
                            *final(self),
                            place,
                            pending.original_text@,
                            sealed,
                            now,
                            r,
                        )
                    },
            },
    {
        if outcome == QueueOutcome::Taken {
            return false;
        }
        if outcome == QueueOutcome::Closed {
            let line = concat3(
                C_ERR,
                "shrink: outgoing worker has died \u{2014} restart to restore. URLs will not be shortened until then.",
                C_RST,
            );
            self.state.add_local_event(line, now.utc_ms);
        }
        let ghost middle = *self;
        let place = Place {
            id: pending.buffer_id,
            conn_id: pending.conn_id,
            name: pending.buffer_name,
            buffer_type: pending.buffer_type,
        };
        let sent = if !self.irc_handles.contains(place.conn_id.as_str()) {
            self.state.add_local_event(
                "Failed to send message: connection unavailable".to_string(),
                now.utc_ms,
            );
            false
        } else {
            self.send_typed(&place, pending.original_text.as_str(), None, sealed, now)
        };
        assert(unshrunk_out(middle, *self, place, pending.original_text@, sealed, now, sent));
        sent
    }
}

/// A message goes out with its links as they are.
pub open spec fn unshrunk_out(
    before: App,
    after: App,
    place: Place,
    text: Seq<char>,
    sealed: Sealed,
    now: Clock,
    sent: bool,
) -> bool {
    if before.irc_handles@.contains_key(place.conn_id@) {
        gated_out(before, after, place, text, None, sealed, now, sent)
    } else {
        &&& !sent
        &&& after == (App { state: after.state, ..before })
        &&& event_shown(
            before.state,
            after.state,
            "Failed to send message: connection unavailable"@,
            now.utc_ms,
        )
    }
}

/// A frame of a message was accepted by a connection during a call: one that is no key notice.
pub open spec fn frame_accepted(before: App, after: App, conn_id: Seq<char>) -> bool {
    &&& before.irc_handles@.contains_key(conn_id)
    &&& exists|i: int|
        before.irc_handles@[conn_id].sender.accepted().len() <= i
            < after.irc_handles@[conn_id].sender.accepted().len() && (
        #[trigger] after.irc_handles@[conn_id].sender.accepted()[i]).verb != "NOTICE"@
}

/// A line of a message was accepted by a direct chat during a call.
pub open spec fn line_accepted(before: App, after: App, key: Seq<char>) -> bool {
    &&& before.dcc_chats@.contains_key(key)
    &&& after.dcc_chats@[key].sent@.len() > before.dcc_chats@[key].sent@.len()
}

/// Something of what was typed into a buffer reached its connection or its direct chat.
pub open spec fn reached(before: App, after: App, b: Buffer) -> bool {
    frame_accepted(before, after, b.connection_id@) || line_accepted(before, after, dcc_key(b.name@))
}

/// Key notices are notices.
pub proof fn lemma_notices(sends: Seq<PendingE2eSend>, conn_id: Seq<char>)
    ensures
        forall|i: int|
            0 <= i < notices_for(sends, conn_id).len() ==> (#[trigger] notices_for(
                sends,
                conn_id,
            )[i]).verb == "NOTICE"@,
    decreases sends.len(),
{
    if sends.len() > 0 {
        lemma_notices(sends.drop_last(), conn_id);
        let init = notices_for(sends.drop_last(), conn_id);
        let all = notices_for(sends, conn_id);
        assert forall|i: int| 0 <= i < all.len() implies (#[trigger] all[i]).verb == "NOTICE"@ by {
            if i < init.len() {
                assert(all[i] == init[i]);
            }
        }
    }
}

/// A message is none of the key notices.
pub proof fn lemma_verbs()
    ensures
        "PRIVMSG"@ != "NOTICE"@,
        "BATCH"@ != "NOTICE"@,
        "BATCH"@ != "PRIVMSG"@,
{
    reveal_strlit("PRIVMSG");
    reveal_strlit("NOTICE");
    reveal_strlit("BATCH");
    assert("PRIVMSG"@.len() != "NOTICE"@.len());
    assert("BATCH"@.len() != "NOTICE"@.len());
    assert("BATCH"@.len() != "PRIVMSG"@.len());
}

/// A sender that took commands of which the first is a frame accepted a frame exactly where it had room.
proof fn lemma_took_frames(before: IrcSender, after: IrcSender, commands: Seq<CommandV>)
    requires
        before.took(after, commands),
        commands.len() > 0 ==> commands[0].verb != "NOTICE"@,
    ensures
        (before.passing(commands.len()) > 0) <==> exists|i: int|
            before.accepted().len() <= i < after.accepted().len() && (
            #[trigger] after.accepted()[i]).verb != "NOTICE"@,
{
    if before.passing(commands.len()) > 0 {
        assert(after.accepted()[before.accepted().len() as int] == commands[0]);
    }
}

/// The first frame of batches opens one.
proof fn lemma_first_frame(name: Seq<char>, counter: u64, batches: Seq<Seq<BatchLineV>>)
    ensures
        batches.len() > 0 ==> all_frames(name, counter, batches).len() > 0 && all_frames(
            name,
            counter,
            batches,
        )[0].verb == "BATCH"@,
        batches.len() == 0 ==> all_frames(name, counter, batches).len() == 0,
    decreases batches.len(),
{
    if batches.len() > 0 {
        lemma_first_frame(name, counter, batches.drop_last());
    }
}

/// What was typed into a channel or query: a frame was accepted exactly where the send says so.
proof fn lemma_typed_reached(
    before: App,
    after: App,
    place: Place,
    lines: Seq<Seq<char>>,
    text: Seq<char>,
    now: Clock,
    sent: bool,
)
    requires
        typed_out(before, after, place, lines, text, now, sent),
        before.irc_handles@.contains_key(place.conn_id@),
    ensures
        sent <==> frame_accepted(before, after, place.conn_id@),
        after.dcc_chats == before.dcc_chats,
{
    lemma_verbs();
    let conn_id = place.conn_id@;
    let name = place.name@;
    let s0 = before.irc_handles@[conn_id].sender;
    let s1 = after.irc_handles@[conn_id].sender;
    let batches = if before.takes_multiline(conn_id) {
        partitioned(text, before.state.connections@[conn_id].multiline->0)
    } else {
        None
    };
    if !is_cipher(lines) && needs_lines(text) && batches is Some {
        let middle = choose|middle: App|
            {
                &&& #[trigger] batches_sent(before, middle, conn_id, name, batches->0)
                &&& after == (App { state: after.state, ..middle })
            };
        let counter = before.state.connections@[conn_id].batch_ref_counter;
        lemma_first_frame(name, counter, batches->0);
        lemma_frame_count(name, counter, batches->0);
        lemma_took_frames(s0, s1, all_frames(name, counter, batches->0));
    } else if !is_cipher(lines) && text.contains('\n') {
        lemma_took_frames(s0, s1, privmsgs(name, separate_lines(pieces(text, '\n'))));
    } else {
        let pending = before.state.pending_e2e_sends@;
        let n = lines.len();
        let k = s0.passing(n);
        let commands = privmsgs(name, lines);
        lemma_notices(pending, conn_id);
        if k < n {
            lemma_took_frames(s0, s1, commands);
        } else {
            let all = commands + notices_for(pending, conn_id);
            assert(handle_took(before.irc_handles@[conn_id], after.irc_handles@[conn_id], all));
            if n > 0 {
                assert(all[0] == commands[0]);
                lemma_took_frames(s0, s1, all);
            } else {
                assert(all =~= notices_for(pending, conn_id));
                assert forall|i: int|
                    s0.accepted().len() <= i < s1.accepted().len() implies (#[trigger] s1.accepted()[i]).verb
                    == "NOTICE"@ by {
                    assert(s1.accepted()[i] == all[i - s0.accepted().len()]);
                }
            }
        }
    }
}

/// A typed message is told as sent exactly where at least one frame of it was accepted by the connection
/// or the direct chat; so not without an active buffer, in a buffer that nothing can be sent to, without a
/// connection, where it was refused, or where it only waits for the translator or the link shortener.
pub proof fn sent_means_accepted(
    before: App,
    after: App,
    text: Seq<char>,
    policy: TranslatePolicy,
    has_links: bool,
    sealed: Sealed,
    now: Clock,
    r: PlainStep,
)
    requires
        plain_handled(before, after, text, policy, has_links, sealed, now, r),
    ensures
        r == PlainStep::Done(true) <==> before.state.active() is Some && reached(
            before,
            after,
            before.state.active()->0,
        ),
{
    match before.state.active() {
        None => {},
        Some(b) => {
            match before.route(text, policy, has_links) {
                PlainRoute::Dcc => {
                    let (place, sent) = choose|place: Place, sent: bool|
                        {
                            &&& place_of(
                                place,
                                before.state.active_buffer_id->0@,
                                before.state.active()->0,
                            )
                            &&& #[trigger] dcc_out(before, after, place, text, now, sent)
                            &&& r == PlainStep::Done(sent)
                        };
                    let key = dcc_key(b.name@);
                    if before.dcc_chats@.contains_key(key) {
                        let a = before.dcc_chats@[key];
                        let c = after.dcc_chats@[key];
                        assert(texts(c.sent@).len() == c.sent@.len());
                        assert(texts(a.sent@).len() == a.sent@.len());
                    }
                },
                PlainRoute::Send => {
                    let (place, sent) = choose|place: Place, sent: bool|
                        {
                            &&& place_of(
                                place,
                                before.state.active_buffer_id->0@,
                                before.state.active()->0,
                            )
                            &&& #[trigger] gated_out(before, after, place, text, None, sealed, now, sent)
                            &&& r == PlainStep::Done(sent)
                        };
                    let (middle, g) = choose|
                        middle: AppState,
                        g: Result<(Vec<String>, String), E2eRefusal>,
                    |
                        {
                            &&& #[trigger] gate_applied(
                                before.state,
                                middle,
                                place.id@,
                                place.name@,
                                place.buffer_type,
                                text,
                                None,
                                sealed,
                                now.utc_ms,
                                g,
                            )
                            &&& match g {
                                Err(reason) => {
                                    &&& !sent
                                    &&& after == (App { state: after.state, ..before })
                                    &&& event_shown(
                                        middle,
                                        after.state,
                                        refusal_line(reason),
                                        now.utc_ms,
                                    )
                                },
                                Ok(out) => typed_out(
                                    (App { state: middle, ..before }),
                                    after,
                                    place,
                                    texts(out.0@),
                                    out.1@,
                                    now,
                                    sent,
                                ),
                            }
                        };
                    if let Ok(out) = g {
                        let gated = App { state: middle, ..before };
                        lemma_typed_reached(gated, after, place, texts(out.0@), out.1@, now, sent);
                        assert(frame_accepted(gated, after, b.connection_id@) == frame_accepted(
                            before,
                            after,
                            b.connection_id@,
                        ));
                    }
                },
                _ => {},
            }
        },
    }
}

/// What the translator and the link shortener are shown is never part of a conversation that may be
/// encrypted.
pub proof fn outsiders_never_see_encrypted_conversations(
    app: App,
    text: Seq<char>,
    policy: TranslatePolicy,
    has_links: bool,
)
    requires
        app.route(text, policy, has_links) == PlainRoute::Shrink || app.route(text, policy, has_links)
            == PlainRoute::Translate,
    ensures
        app.state.active() matches Some(b) && !app.state.possible_for(b.connection_id@, b.name@),
{
}

/// Without a carriage return at its end, a line stays as it is.
proof fn lemma_nothing_trimmed(s: Seq<char>)
    requires
        s.len() == 0 || s.last() != '\r',
    ensures
        trim_cr(s) == s,
{
}

proof fn lemma_separate_both(a: Seq<Seq<char>>, b: Seq<Seq<char>>)
    ensures
        separate_lines(a + b) == separate_lines(a) + separate_lines(b),
    decreases b.len(),
{
    if b.len() == 0 {
        assert(a + b =~= a);
        assert(separate_lines(a) + separate_lines(b) =~= separate_lines(a));
    } else {
        assert((a + b).drop_last() =~= a + b.drop_last());
        assert((a + b).last() == b.last());
        lemma_separate_both(a, b.drop_last());
        assert(separate_lines(a + b) =~= separate_lines(a) + separate_lines(b));
    }
}

/// Lines go out in their order: the messages of two texts with a line break between them are those of the
/// first and then those of the second.
pub proof fn lines_go_out_in_order(a: Seq<char>, b: Seq<char>)
    ensures
        separate_lines(pieces(a.push('\n') + b, '\n')) == separate_lines(pieces(a, '\n')) + separate_lines(
            pieces(b, '\n'),
        ),
{
    separators_part_a_text(a, '\n', b);
    lemma_separate_both(pieces(a, '\n'), pieces(b, '\n'));
}

/// A line on its own goes out whole: its messages together are the line, none is longer than a message may
/// be, and there is one message where it fits and none where it is blank. A carriage return at its end
/// changes nothing.
pub proof fn each_line_goes_out_whole(line: Seq<char>)
    requires
        !line.contains('\n'),
        line.len() > 0 ==> line.last() != '\r',
    ensures
        glued(separate_lines(pieces(line, '\n'))) == line,
        forall|i: int|
            0 <= i < separate_lines(pieces(line, '\n')).len() ==> text_bytes(
                #[trigger] separate_lines(pieces(line, '\n'))[i],
            ) <= MESSAGE_MAX_BYTES,
        line.len() == 0 ==> separate_lines(pieces(line, '\n')).len() == 0,
        line.len() > 0 && text_bytes(line) <= MESSAGE_MAX_BYTES ==> separate_lines(pieces(line, '\n')) == seq![
            line,
        ],
        separate_lines(pieces(line.push('\r'), '\n')) == separate_lines(pieces(line, '\n')),
{
    unparted_text_is_one_piece(line, '\n');
    lemma_separate_one(line);
    lemma_nothing_trimmed(line);
    chunks_keep_the_text(line, MESSAGE_MAX_BYTES as nat);
    lemma_chunks_fit(line, MESSAGE_MAX_BYTES as nat);
    if text_bytes(line) <= MESSAGE_MAX_BYTES {
        lemma_short_line(line, MESSAGE_MAX_BYTES as nat);
    }
    let ended = line.push('\r');
    assert forall|i: int| 0 <= i < ended.len() implies ended[i] != '\n' by {
        if i < line.len() {
            assert(line[i] == ended[i]);
        }
    }
    unparted_text_is_one_piece(ended, '\n');
    lemma_separate_one(ended);
    assert(ended.drop_last() =~= line);
    assert(trim_cr(ended) == trim_cr(line));
}

proof fn lemma_separate_one(line: Seq<char>)
    ensures
        separate_lines(seq![line]) == chunks(trim_cr(line), MESSAGE_MAX_BYTES as nat),
{
    let one = seq![line];
    assert(one.drop_last() =~= Seq::<Seq<char>>::empty());
    assert(separate_lines(one.drop_last()) =~= Seq::<Seq<char>>::empty());
    assert(one.last() == line);
    assert(separate_lines(one) =~= chunks(trim_cr(line), MESSAGE_MAX_BYTES as nat));
}

/// Without carriage returns, lines that go out one by one keep their text.
proof fn lemma_separate_glued(lines: Seq<Seq<char>>)
    requires
        forall|i: int| 0 <= i < lines.len() ==> !(#[trigger] lines[i]).contains('\r'),
    ensures
        glued(separate_lines(lines)) == glued(lines),
    decreases lines.len(),
{
    if lines.len() > 0 {
        let rest = lines.drop_last();
        let last = lines.last();
        assert forall|i: int| 0 <= i < rest.len() implies !(#[trigger] rest[i]).contains('\r') by {
            assert(rest[i] == lines[i]);
        }
        lemma_separate_glued(rest);
        assert(!lines[lines.len() - 1].contains('\r'));
        assert(last.len() > 0 ==> last[last.len() - 1] != '\r');
        lemma_nothing_trimmed(last);
        chunks_keep_the_text(last, MESSAGE_MAX_BYTES as nat);
        lemma_glued_both(separate_lines(rest), chunks(last, MESSAGE_MAX_BYTES as nat));
    }
}

/// What stands in no text stands in none of its pieces.
pub proof fn lemma_pieces_without(s: Seq<char>, sep: char, c: char)
    requires
        !s.contains(c),
    ensures
        forall|i: int| 0 <= i < pieces(s, sep).len() ==> !(#[trigger] pieces(s, sep)[i]).contains(c),
    decreases s.len(),
{
    if s.len() > 0 {
        let rest = s.drop_last();
        assert forall|i: int| 0 <= i < rest.len() implies rest[i] != c by {
            assert(s[i] == rest[i]);
        }
        assert(s[s.len() - 1] != c);
        lemma_pieces_without(rest, sep, c);
        lemma_some_piece(rest, sep);
        let init = pieces(rest, sep);
        let all = pieces(s, sep);
        assert forall|i: int| 0 <= i < all.len() implies !(#[trigger] all[i]).contains(c) by {
            if i < init.len() {
                assert(!init[i].contains(c));
                if all[i].contains(c) {
                    let w = all[i].index_of(c);
                    assert(w < init[i].len() ==> init[i][w] == c);
                }
            }
        }
    }
}

/// What a batch says on the wire.
proof fn lemma_said_frames(name: Seq<char>, batch_ref: Seq<char>, lines: Seq<BatchLineV>)
    ensures
        said_to(frames(name, batch_ref, lines), name) == glued(lines.map_values(|l: BatchLineV| l.text)),
        forall|i: int|
            0 <= i < frames(name, batch_ref, lines).len() && (#[trigger] frames(name, batch_ref, lines)[i]).verb
                == "PRIVMSG"@ ==> frames(name, batch_ref, lines)[i].params[0] == name,
{
    lemma_verbs();
    let f = |l: BatchLineV| line_frame(name, batch_ref, l);
    let open = seq![untagged("BATCH"@, seq![seq!['+'] + batch_ref, "draft/multiline"@, name])];
    let close = seq![untagged("BATCH"@, seq![seq!['-'] + batch_ref])];
    let middle = lines.map_values(f);
    lemma_said_middle(name, batch_ref, lines);
    lemma_said_nothing(open, name);
    lemma_said_nothing(close, name);
    lemma_said_both(open, middle, name);
    lemma_said_both(open + middle, close, name);
    assert(said_to(open + middle + close, name) =~= said_to(middle, name));
}

proof fn lemma_said_middle(name: Seq<char>, batch_ref: Seq<char>, lines: Seq<BatchLineV>)
    ensures
        said_to(lines.map_values(|l: BatchLineV| line_frame(name, batch_ref, l)), name) == glued(
            lines.map_values(|l: BatchLineV| l.text),
        ),
    decreases lines.len(),
{
    let f = |l: BatchLineV| line_frame(name, batch_ref, l);
    let g = |l: BatchLineV| l.text;
    if lines.len() > 0 {
        lemma_said_middle(name, batch_ref, lines.drop_last());
        assert(lines.map_values(f).drop_last() =~= lines.drop_last().map_values(f));
        assert(lines.map_values(g).drop_last() =~= lines.drop_last().map_values(g));
        assert(lines.map_values(f).last() == line_frame(name, batch_ref, lines.last()));
    }
}

/// What batches say on the wire.
proof fn lemma_said_batches(name: Seq<char>, counter: u64, batches: Seq<Seq<BatchLineV>>)
    ensures
        said_to(all_frames(name, counter, batches), name) == batched_text(batches),
        forall|i: int|
            0 <= i < all_frames(name, counter, batches).len() && (#[trigger] all_frames(
                name,
                counter,
                batches,
            )[i]).verb == "PRIVMSG"@ ==> all_frames(name, counter, batches)[i].params[0] == name,
    decreases batches.len(),
{
    if batches.len() > 0 {
        let init = all_frames(name, counter, batches.drop_last());
        let last = frames(name, batch_ref_seq(nth_id(counter, batches.len())), batches.last());
        let all = all_frames(name, counter, batches);
        lemma_said_batches(name, counter, batches.drop_last());
        lemma_said_frames(name, batch_ref_seq(nth_id(counter, batches.len())), batches.last());
        lemma_said_both(init, last, name);
        assert forall|i: int| 0 <= i < all.len() && (#[trigger] all[i]).verb == "PRIVMSG"@ implies all[i].params[0]
            == name by {
            if i < init.len() {
                assert(all[i] == init[i]);
            } else {
                assert(all[i] == last[i - init.len()]);
            }
        }
    }
}

/// What a sender without a limit accepted beyond what it had accepted before.
pub open spec fn newly_accepted(before: IrcSender, after: IrcSender) -> Seq<CommandV> {
    after.accepted().skip(before.accepted().len() as int)
}

/// What is typed is what is sent. Where the policy lets a text through as it is, whatever form it goes out
/// in (multiline batches, line by line, or as messages cut to size), the messages that the connection
/// accepts say the text from its first character to its last, without its line breaks, to the buffer's
/// conversation and to nobody else.
pub proof fn what_is_typed_is_what_is_sent(
    before: App,
    after: App,
    place: Place,
    text: Seq<char>,
    captured: Option<Seq<char>>,
    sealed: Sealed,
    now: Clock,
    sent: bool,
)
    requires
        gated_out(before, after, place, text, captured, sealed, now, sent),
        before.state.gate(place.id@, place.name@, place.buffer_type, text, captured) is Plain
            || before.state.gate(place.id@, place.name@, place.buffer_type, text, captured) is BotBypass,
        before.irc_handles@.contains_key(place.conn_id@),
        before.irc_handles@[place.conn_id@].sender.room is None,
        !text.contains('\r'),
    ensures
        ({
            let s0 = before.irc_handles@[place.conn_id@].sender;
            let s1 = after.irc_handles@[place.conn_id@].sender;
            let new = newly_accepted(s0, s1);
            &&& s0.accepted().is_prefix_of(s1.accepted())
            &&& said_to(new, place.name@) == text.filter(|c: char| c != '\n')
            &&& forall|i: int|
                0 <= i < new.len() && (#[trigger] new[i]).verb == "PRIVMSG"@ ==> new[i].params[0] == place.name@
        }),
{
    let (middle, r) = choose|middle: AppState, r: Result<(Vec<String>, String), E2eRefusal>| #[trigger]
        gate_passed(before, after, place, text, captured, sealed, now, sent, middle, r);
    let out = r->Ok_0;
    lemma_typed_says(App { state: middle, ..before }, after, place, texts(out.0@), text, now, sent);
}

/// What is typed out says the text.
proof fn lemma_typed_says(
    before: App,
    after: App,
    place: Place,
    lines: Seq<Seq<char>>,
    text: Seq<char>,
    now: Clock,
    sent: bool,
)
    requires
        typed_out(before, after, place, lines, text, now, sent),
        lines == message_lines(text, MESSAGE_MAX_BYTES as nat),
        before.irc_handles@.contains_key(place.conn_id@),
        before.irc_handles@[place.conn_id@].sender.room is None,
        !text.contains('\r'),
    ensures
        ({
            let s0 = before.irc_handles@[place.conn_id@].sender;
            let s1 = after.irc_handles@[place.conn_id@].sender;
            let new = newly_accepted(s0, s1);
            &&& s0.accepted().is_prefix_of(s1.accepted())
            &&& said_to(new, place.name@) == text.filter(|c: char| c != '\n')
            &&& forall|i: int|
                0 <= i < new.len() && (#[trigger] new[i]).verb == "PRIVMSG"@ ==> new[i].params[0] == place.name@
        }),
{
    lemma_verbs();
    let conn_id = place.conn_id@;
    let name = place.name@;
    let s0 = before.irc_handles@[conn_id].sender;
    let s1 = after.irc_handles@[conn_id].sender;
    let new = newly_accepted(s0, s1);
    let batches = if before.takes_multiline(conn_id) {
        partitioned(text, before.state.connections@[conn_id].multiline->0)
    } else {
        None
    };
    if !is_cipher(lines) && needs_lines(text) && batches is Some {
        let middle = choose|middle: App|
            {
                &&& #[trigger] batches_sent(before, middle, conn_id, name, batches->0)
                &&& after == (App { state: after.state, ..middle })
            };
        let counter = before.state.connections@[conn_id].batch_ref_counter;
        let all = all_frames(name, counter, batches->0);
        assert(all.take(all.len() as int) =~= all);
        assert(new =~= all);
        assert(s0.accepted() =~= s1.accepted().subrange(0, s0.accepted().len() as int));
        lemma_said_batches(name, counter, batches->0);
        batches_keep_the_text(text, before.state.connections@[conn_id].multiline->0);
    } else if !is_cipher(lines) && text.contains('\n') {
        let messages = separate_lines(pieces(text, '\n'));
        let all = privmsgs(name, messages);
        assert(all.take(all.len() as int) =~= all);
        assert(new =~= all);
        assert(s0.accepted() =~= s1.accepted().subrange(0, s0.accepted().len() as int));
        lemma_said_lines(name, messages);
        lemma_pieces_without(text, '\n', '\r');
        lemma_separate_glued(pieces(text, '\n'));
        lemma_glued_pieces(text, '\n');
        assert forall|i: int|
            0 <= i < new.len() && (#[trigger] new[i]).verb == "PRIVMSG"@ implies new[i].params[0] == name by {
            assert(new[i] == privmsg_v(name, messages[i]));
        }
    } else {
        let pending = before.state.pending_e2e_sends@;
        let commands = privmsgs(name, lines);
        let notices = notices_for(pending, conn_id);
        let all = commands + notices;
        lemma_notices(pending, conn_id);
        assert(handle_took(before.irc_handles@[conn_id], after.irc_handles@[conn_id], all));
        assert(all.take(all.len() as int) =~= all);
        assert(new =~= all);
        assert(s0.accepted() =~= s1.accepted().subrange(0, s0.accepted().len() as int));
        lemma_said_lines(name, lines);
        lemma_said_nothing(notices, name);
        lemma_said_both(commands, notices, name);
        messages_keep_the_text(text, MESSAGE_MAX_BYTES as nat);
        assert(said_to(all, name) =~= said_to(commands, name));
        assert forall|i: int|
            0 <= i < new.len() && (#[trigger] new[i]).verb == "PRIVMSG"@ implies new[i].params[0] == name by {
            if i < commands.len() {
                assert(new[i] == privmsg_v(name, lines[i]));
            } else {
                assert(new[i] == notices[i - commands.len()]);
            }
        }
    }
}

/// Where encryption is on, nothing but ciphertext goes out: whatever is typed, every message that the connection
/// accepts is a line that the cipher made, in their order, and it goes to the buffer's conversation.
pub proof fn sealed_text_goes_out_as_ciphertext(
    before: App,
    after: App,
    place: Place,
    text: Seq<char>,
    captured: Option<Seq<char>>,
    sealed: Sealed,
    now: Clock,
    sent: bool,
)
    requires
        gated_out(before, after, place, text, captured, sealed, now, sent),
        before.state.gate(place.id@, place.name@, place.buffer_type, text, captured) is Encrypt,
        before.irc_handles@.contains_key(place.conn_id@),
        before.irc_handles@[place.conn_id@].sender.room is None,
        sealed.lines matches Ok(lines) ==> lines@.len() > 0 && CIPHER_MARK@.is_prefix_of(texts(lines@)[0]),
    ensures
        ({
            let s0 = before.irc_handles@[place.conn_id@].sender;
            let s1 = after.irc_handles@[place.conn_id@].sender;
            let new = newly_accepted(s0, s1);
            match sealed.lines {
                Ok(lines) => {
                    &&& sent
                    &&& new.len() >= lines@.len()
                    &&& forall|i: int|
                        0 <= i < lines@.len() ==> (#[trigger] new[i]).verb == "PRIVMSG"@ && new[i].params == seq![
                            place.name@,
                            lines@[i]@,
                        ]
                    &&& forall|i: int| lines@.len() <= i < new.len() ==> (#[trigger] new[i]).verb == "NOTICE"@
                },
                Err(_) => !sent && new.len() == 0,
            }
        }),
{
    let (middle, r) = choose|middle: AppState, r: Result<(Vec<String>, String), E2eRefusal>| #[trigger]
        gate_passed(before, after, place, text, captured, sealed, now, sent, middle, r);
    let conn_id = place.conn_id@;
    let s0 = before.irc_handles@[conn_id].sender;
    let s1 = after.irc_handles@[conn_id].sender;
    let new = newly_accepted(s0, s1);
    match sealed.lines {
        Ok(lines) => {
            let start = App { state: middle, ..before };
            let pending = middle.pending_e2e_sends@;
            let commands = privmsgs(place.name@, texts(lines@));
            let notices = notices_for(pending, conn_id);
            let all = commands + notices;
            lemma_notices(pending, conn_id);
            assert(start.irc_handles@.contains_key(conn_id));
            assert(handle_took(start.irc_handles@[conn_id], after.irc_handles@[conn_id], all));
            assert(all.take(all.len() as int) =~= all);
            assert(new =~= all);
            assert forall|i: int| 0 <= i < lines@.len() implies (#[trigger] new[i]).verb == "PRIVMSG"@
                && new[i].params == seq![place.name@, lines@[i]@] by {
                assert(new[i] == privmsg_v(place.name@, texts(lines@)[i]));
            }
            assert forall|i: int| lines@.len() <= i < new.len() implies (#[trigger] new[i]).verb == "NOTICE"@ by {
                assert(new[i] == notices[i - commands.len()]);
            }
        },
        Err(_) => {},
    }
}

/// What is typed into a direct chat goes to its peer line by line, and with the line breaks put back it is the
/// text; it goes to no server.
pub proof fn direct_chats_get_every_line(
    before: App,
    after: App,
    place: Place,
    text: Seq<char>,
    now: Clock,
    sent: bool,
    nick: Seq<char>,
)
    requires
        dcc_out(before, after, place, text, now, sent),
        place.name@ == seq!['='] + nick,
        before.dcc_chats@.contains_key(lower_seq(nick)),
        before.dcc_chats@[lower_seq(nick)].room is None,
    ensures
        sent,
        after.irc_handles == before.irc_handles,
        ({
            let d0 = texts(before.dcc_chats@[lower_seq(nick)].sent@);
            let d1 = texts(after.dcc_chats@[lower_seq(nick)].sent@);
            &&& d0.is_prefix_of(d1)
            &&& join_seq(d1.skip(d0.len() as int), seq!['\n']) == text
        }),
        forall|k: Seq<char>| #[trigger]
            before.dcc_chats@.contains_key(k) && k != lower_seq(nick) ==> after.dcc_chats@[k] == before.dcc_chats@[k],
{
    reveal_strlit("=");
    let key = lower_seq(nick);
    assert("="@ =~= place.name@.subrange(0, 1));
    assert(place.name@.skip("="@.len() as int) =~= nick);
    let lines = pieces(text, '\n');
    lemma_some_piece(text, '\n');
    lemma_rejoined(text);
    assert(lines.take(lines.len() as int) =~= lines);
    let d0 = texts(before.dcc_chats@[key].sent@);
    let d1 = texts(after.dcc_chats@[key].sent@);
    assert(d1.skip(d0.len() as int) =~= lines);
    assert(d0 =~= d1.subrange(0, d0.len() as int));
}

} // verus!
