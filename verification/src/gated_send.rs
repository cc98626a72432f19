//! Sends that are addressed by a target's name rather than typed into its buffer.
use vstd::prelude::*;

use crate::app::{handle_took, notices_for, App, Clock};
use crate::e2e_gate::{
    all_off, bot_line, nothing_on_means_plain, planned, refusal_line, E2eRefusal, E2eSendPlan, Sealed,
    CIPHER_MARK,
};
use crate::keyring::channel_target;
use crate::state::{
    appended_at, buffer_id_seq, event_shown, event_v, id_after, lines_shown, make_buffer_id, AppState,
    MessageType, PendingE2eSend,
};
use crate::submit::{lemma_notices, lemma_verbs, newly_accepted};
use crate::text::{chars_of, concat, concat3, texts};
use crate::wire::{
    glued, lemma_glued_both, lemma_glued_one, lemma_said_both, lemma_said_lines, lemma_said_nothing,
    lemma_took_twice, privmsg_v, privmsgs, said_to,
};

verus! {

broadcast use vstd::string::group_string_axioms;

/// What is shown locally of a message that was sent by target.
pub struct GatedEcho<'a> {
    /// The buffer that shows it; a missing one shows nothing.
    pub buffer_id: &'a str,
    /// The plain text, without any CTCP framing.
    pub text: &'a str,
    pub message_type: MessageType,
    /// Also show a message that went out as plain text, unless the server echoes it.
    pub even_without_encryption: bool,
}

/// The lines that go out: a plain CTCP stays in one piece.
pub open spec fn gated_lines(plan: E2eSendPlan, wire_text: Seq<char>) -> Seq<Seq<char>> {
    if !plan.encrypted && wire_text.len() > 0 && wire_text[0] == '\u{1}' {
        seq![wire_text]
    } else {
        texts(plan.wire_lines@)
    }
}

/// What a failed send reports.
pub open spec fn send_failure(reason: Seq<char>) -> Seq<char> {
    "Failed to send message: "@ + reason
}

/// The nick of a connection, empty without one.
pub open spec fn nick_on(state: AppState, conn_id: Seq<char>) -> Seq<char> {
    if state.connections@.contains_key(conn_id) {
        state.connections@[conn_id].nick@
    } else {
        Seq::empty()
    }
}

/// Whether a connection has a capability.
pub open spec fn has_cap(state: AppState, conn_id: Seq<char>, cap: Seq<char>) -> bool {
    state.connections@.contains_key(conn_id) && state.connections@[conn_id].enabled_caps@.contains(cap)
}

/// The echo of a sent message, as far as one is due.
pub open spec fn echoed(
    before: AppState,
    after: AppState,
    conn_id: Seq<char>,
    echo: Option<GatedEcho>,
    encrypted: bool,
    lines: Seq<Seq<char>>,
    now_ms: i64,
) -> bool {
    match echo {
        Some(echo) if encrypted || (echo.even_without_encryption && !has_cap(
            before,
            conn_id,
            "echo-message"@,
        )) => lines_shown(
            before,
            after,
            echo.buffer_id@,
            echo.message_type,
            nick_on(before, conn_id),
            before.prefix_of(echo.buffer_id@, nick_on(before, conn_id)),
            if encrypted || echo.message_type == MessageType::Action {
                seq![echo.text@]
            } else {
                lines
            },
            now_ms,
        ),
        _ => after == before,
    }
}

/// A planned message is carried out: its lines go out up to the first failure; after all of them the
/// typing debt is settled, queued keys follow and the echo is shown.
pub open spec fn carried_out(
    before: App,
    middle: AppState,
    after: App,
    plan: E2eSendPlan,
    conn_id: Seq<char>,
    target: Seq<char>,
    wire_text: Seq<char>,
    echo: Option<GatedEcho>,
    now: Clock,
    sent: bool,
) -> bool {
    let lines = gated_lines(plan, wire_text);
    let commands = privmsgs(target, lines);
    let sender = before.irc_handles@[conn_id].sender;
    let id = buffer_id_seq(conn_id, target);
    if sender.passing(commands.len()) < commands.len() {
        &&& !sent
        &&& after == (App { state: after.state, irc_handles: after.irc_handles, ..before })
        &&& event_shown(middle, after.state, send_failure(sender.error@), now.utc_ms)
        &&& after.irc_handles@ == before.irc_handles@.insert(conn_id, after.irc_handles@[conn_id])
        &&& handle_took(before.irc_handles@[conn_id], after.irc_handles@[conn_id], commands)
    } else {
        &&& sent
        &&& after == (App {
            state: after.state,
            irc_handles: after.irc_handles,
            typing: after.typing,
            ..before
        })
        &&& after.typing.told@ == before.typing.told@.remove(id)
        &&& after.typing.messages@ == before.typing.messages@.insert(id, now.mono_ms)
        &&& after.typing.tui == before.typing.tui
        &&& after.typing.web == before.typing.web
        &&& after.irc_handles@.dom() == before.irc_handles@.dom()
        &&& forall|c: Seq<char>| #[trigger]
            before.irc_handles@.contains_key(c) ==> handle_took(
                before.irc_handles@[c],
                after.irc_handles@[c],
                if c == conn_id {
                    commands + notices_for(middle.pending_e2e_sends@, c)
                } else {
                    notices_for(middle.pending_e2e_sends@, c)
                },
            )
        &&& after.state.pending_e2e_sends@ == Seq::<PendingE2eSend>::empty()
        &&& echoed(
            (AppState { pending_e2e_sends: after.state.pending_e2e_sends, ..middle }),
            after.state,
            conn_id,
            echo,
            plan.encrypted,
            lines,
            now.utc_ms,
        )
    }
}

/// A message to a target went the way that the policy wants: nowhere without its connection, to the
/// translation where that took it over, and else as it is planned.
pub open spec fn gated_sent(
    before: App,
    after: App,
    conn_id: Seq<char>,
    target: Seq<char>,
    wire_text: Seq<char>,
    echo: Option<GatedEcho>,
    translation: Option<bool>,
    sealed: Sealed,
    now: Clock,
    r: bool,
) -> bool {
    if !before.irc_handles@.contains_key(conn_id) {
        &&& !r
        &&& after == (App { state: after.state, ..before })
        &&& event_shown(before.state, after.state, send_failure("connection unavailable"@), now.utc_ms)
    } else if translation is Some {
        r == translation->0 && after == before
    } else {
        exists|middle: AppState, plan: Result<E2eSendPlan, E2eRefusal>|
            {
                &&& #[trigger] planned(
                    before.state,
                    middle,
                    conn_id,
                    target,
                    wire_text,
                    sealed,
                    now.utc_ms,
                    plan,
                )
                &&& match plan {
                    Err(reason) => {
                        &&& !r
                        &&& after == (App { state: after.state, ..before })
                        &&& event_shown(middle, after.state, refusal_line(reason), now.utc_ms)
                    },
                    Ok(plan) => carried_out(
                        before,
                        middle,
                        after,
                        plan,
                        conn_id,
                        target,
                        wire_text,
                        echo,
                        now,
                        r,
                    ),
                }
            }
    }
}

impl App {
    /// Runs the policy for a target, puts the lines on its connection, lets queued keys follow, and
    /// shows the message locally where that is due. Tells whether the message reached the wire.
    ///
    /// `translation` is what the translation of outgoing messages made of the text: `Some` where it
    /// took the message over, with whether it counts as sent.
    pub fn send_gated_message(
        &mut self,
        conn_id: &str,
        target: &str,
        wire_text: &str,
        echo: Option<GatedEcho<'_>>,
        translation: Option<bool>,
        sealed: Sealed,
        now: Clock,
    ) -> (r: bool)
        ensures
            final(self).irc_handles.keys() == old(self).irc_handles.keys(),
            final(self).state.connections.keys() == old(self).state.connections.keys(),
            gated_sent(
                *old(self),
                *final(self),
                conn_id@,
                target@,
                wire_text@,
                echo,
                translation,
                sealed,
                now,
                r,
            ),
    {
        let ghost before = *self;
        if !self.irc_handles.contains(conn_id) {
            let text = concat("Failed to send message: ", "connection unavailable");
            self.state.add_local_event(text, now.utc_ms);
            return false;
        }
        match translation {
            Some(handled) => {
                return handled;
            },
            None => {},
        }
        let result = self.state.e2e_send_plan_for_target(conn_id, target, wire_text, sealed, now.utc_ms);
        let ghost middle = self.state;
        let plan = match result {
            Ok(plan) => plan,
            Err(reason) => {
                self.state.add_local_event(reason.user_message(), now.utc_ms);
                return false;
            },
        };
        let ghost the_plan = plan;
        let encrypted = plan.encrypted;
        let v = chars_of(wire_text);
        let lines = if !encrypted && v.len() > 0 && v[0] == '\u{1}' {
            let mut one: Vec<String> = Vec::new();
            one.push(wire_text.to_string());
            assert(texts(one@) =~= seq![wire_text@]);
            one
        } else {
            plan.wire_lines
        };
        assert(texts(lines@) == gated_lines(the_plan, wire_text@));
        let ghost commands = privmsgs(target@, texts(lines@));
        let n: usize = lines.len();
        assert(commands.len() == n);
        let passed: usize = match self.irc_handles.get_mut(conn_id) {
            Some(handle) => handle.sender.send_privmsgs(target, &lines),
            None => 0,
        };
        let ghost after_lines = self.irc_handles;
        if passed < n {
            let text = match self.irc_handles.get(conn_id) {
                Some(handle) => concat("Failed to send message: ", handle.sender.error.as_str()),
                None => String::new(),
            };
            self.state.add_local_event(text, now.utc_ms);
            assert(carried_out(
                before,
                middle,
                *self,
                the_plan,
                conn_id@,
                target@,
                wire_text@,
                echo,
                now,
                false,
            ));
            return false;
        }
        let buffer_id = make_buffer_id(conn_id, target);
        self.typing.note_message_sent(buffer_id.as_str(), now.mono_ms);
        self.drain_pending_e2e_sends();
        proof {
            assert(self.irc_handles@.dom() =~= before.irc_handles@.dom());
            assert forall|c: Seq<char>| #[trigger] before.irc_handles@.contains_key(c) implies handle_took(
                before.irc_handles@[c],
                self.irc_handles@[c],
                if c == conn_id@ {
                    commands + notices_for(middle.pending_e2e_sends@, c)
                } else {
                    notices_for(middle.pending_e2e_sends@, c)
                },
            ) by {
                assert(after_lines@.contains_key(c));
                if c == conn_id@ {
                    lemma_took_twice(
                        before.irc_handles@[c].sender,
                        after_lines@[c].sender,
                        self.irc_handles@[c].sender,
                        commands,
                        notices_for(middle.pending_e2e_sends@, c),
                    );
                }
            }
        }
        let ghost drained = self.state;
        self.show_echo(conn_id, &echo, encrypted, &lines, now.utc_ms);
        assert(carried_out(
            before,
            middle,
            *self,
            the_plan,
            conn_id@,
            target@,
            wire_text@,
            echo,
            now,
            true,
        ));
        true
    }

    /// Shows a sent message locally, as far as that is due.
    fn show_echo(
        &mut self,
        conn_id: &str,
        echo: &Option<GatedEcho<'_>>,
        encrypted: bool,
        lines: &Vec<String>,
        now_ms: i64,
    )
        ensures
            *final(self) == (App { state: final(self).state, ..*old(self) }),
            echoed(
                old(self).state,
                final(self).state,
                conn_id@,
                *echo,
                encrypted,
                texts(lines@),
                now_ms,
            ),
    {
        match echo {
            None => {},
            Some(echo) => {
                let (nick, echo_cap) = match self.state.connections.get(conn_id) {
                    Some(connection) => (
                        connection.nick.clone(),
                        connection.enabled_caps.contains("echo-message"),
                    ),
                    None => (String::new(), false),
                };
                if encrypted || (echo.even_without_encryption && !echo_cap) {
                    let own_mode = self.state.nick_prefix(echo.buffer_id, nick.as_str());
                    if encrypted || echo.message_type == MessageType::Action {
                        let mut one: Vec<String> = Vec::new();
                        one.push(echo.text.to_string());
                        assert(texts(one@).take(1) =~= seq![echo.text@]);
                        self.state.say_lines(
                            echo.buffer_id,
                            echo.message_type,
                            nick.as_str(),
                            own_mode,
                            &one,
                            1,
                            now_ms,
                        );
                    } else {
                        let n: usize = lines.len();
                        assert(texts(lines@).take(n as int) =~= texts(lines@));
                        self.state.say_lines(
                            echo.buffer_id,
                            echo.message_type,
                            nick.as_str(),
                            own_mode,
                            lines,
                            n,
                            now_ms,
                        );
                    }
                }
            },
        }
    }

    /// Warns that something is about to travel as plain text to a target whose conversation has
    /// encryption on. An advice: it never blocks the send.
    pub fn warn_cleartext_to_e2e_target(
        &mut self,
        conn_id: &str,
        target: &str,
        what: &str,
        now_ms: i64,
    )
        ensures
            *final(self) == (App { state: final(self).state, ..*old(self) }),
            match old(self).state.active_buffer_id {
                Some(active) if old(self).state.enabled_for(conn_id@, target@) => {
                    &&& final(self).state == (AppState {
                        buffers: final(self).state.buffers,
                        message_counter: id_after(old(self).state.message_counter),
                        ..old(self).state
                    })
                    &&& appended_at(
                        old(self).state.buffers,
                        final(self).state.buffers,
                        active@,
                        seq![
                            event_v(
                                id_after(old(self).state.message_counter),
                                now_ms,
                                "[E2E] "@ + what@ + " to "@ + target@
                                    + " is sent in CLEARTEXT \u{2014} RPE2E protects PRIVMSGs only"@,
                                Some("e2e_warning"@),
                            ),
                        ],
                    )
                },
                _ => final(self).state == old(self).state,
            },
    {
        if !self.state.e2e_enabled_for_target(conn_id, target) {
            return;
        }
        let active = match &self.state.active_buffer_id {
            None => {
                return;
            },
            Some(active) => active.clone(),
        };
        let mut text = concat3("[E2E] ", what, " to ");
        text.append(target);
        text.append(" is sent in CLEARTEXT \u{2014} RPE2E protects PRIVMSGs only");
        self.state.add_event(active.as_str(), text, Some("e2e_warning".to_string()), now_ms);
    }
}

/// A message to a target that nothing was turned on for says what it was given: without a limit of the
/// connection it is sent, the messages that the connection accepts say the text without its line breaks to
/// that target and to nobody else, a request of a client to another goes in one piece, and what was told of
/// typing there is settled.
pub proof fn messages_say_what_they_were_given(
    before: App,
    after: App,
    conn_id: Seq<char>,
    target: Seq<char>,
    wire_text: Seq<char>,
    echo: Option<GatedEcho>,
    sealed: Sealed,
    now: Clock,
    r: bool,
)
    requires
        gated_sent(before, after, conn_id, target, wire_text, echo, None, sealed, now, r),
        all_off(before.state, buffer_id_seq(conn_id, target), target, None),
        before.irc_handles@.contains_key(conn_id),
        before.irc_handles@[conn_id].sender.room is None,
        !(channel_target(target) && bot_line(wire_text)),
    ensures
        r,
        ({
            let s0 = before.irc_handles@[conn_id].sender;
            let s1 = after.irc_handles@[conn_id].sender;
            let new = newly_accepted(s0, s1);
            &&& s0.accepted().is_prefix_of(s1.accepted())
            &&& said_to(new, target).filter(|c: char| c != '\n') == wire_text.filter(|c: char| c != '\n')
            &&& wire_text.len() > 0 && wire_text[0] == '\u{1}' ==> new.len() > 0 && new[0].params == seq![
                target,
                wire_text,
            ]
            &&& forall|i: int|
                0 <= i < new.len() && (#[trigger] new[i]).verb == "PRIVMSG"@ ==> new[i].params[0] == target
        }),
        !after.typing.told@.contains_key(buffer_id_seq(conn_id, target)),
{
    let (middle, result) = choose|middle: AppState, plan: Result<E2eSendPlan, E2eRefusal>|
        {
            &&& #[trigger] planned(
                before.state,
                middle,
                conn_id,
                target,
                wire_text,
                sealed,
                now.utc_ms,
                plan,
            )
            &&& match plan {
                Err(reason) => {
                    &&& !r
                    &&& after == (App { state: after.state, ..before })
                    &&& event_shown(middle, after.state, refusal_line(reason), now.utc_ms)
                },
                Ok(plan) => carried_out(
                    before,
                    middle,
                    after,
                    plan,
                    conn_id,
                    target,
                    wire_text,
                    echo,
                    now,
                    r,
                ),
            }
        };
    nothing_on_means_plain(before.state, middle, conn_id, target, wire_text, sealed, now.utc_ms, result);
    let plan = result->Ok_0;
    let kept = |c: char| c != '\n';
    let lines = gated_lines(plan, wire_text);
    let commands = privmsgs(target, lines);
    let notices = notices_for(middle.pending_e2e_sends@, conn_id);
    let all = commands + notices;
    let s0 = before.irc_handles@[conn_id].sender;
    let s1 = after.irc_handles@[conn_id].sender;
    let new = newly_accepted(s0, s1);
    lemma_verbs();
    lemma_notices(middle.pending_e2e_sends@, conn_id);
    assert(handle_took(before.irc_handles@[conn_id], after.irc_handles@[conn_id], all));
    assert(all.take(all.len() as int) =~= all);
    assert(new =~= all);
    assert(s0.accepted() =~= s1.accepted().subrange(0, s0.accepted().len() as int));
    lemma_said_lines(target, lines);
    lemma_said_nothing(notices, target);
    lemma_said_both(commands, notices, target);
    assert(said_to(all, target) =~= glued(lines));
    if !plan.encrypted && wire_text.len() > 0 && wire_text[0] == '\u{1}' {
        lemma_glued_one(wire_text);
        assert(new[0] == privmsg_v(target, lines[0]));
    } else {
        if wire_text.len() > 0 && wire_text[0] == '\u{1}' {
            lemma_no_cipher(plan, wire_text);
        }
        lemma_filter_twice(wire_text);
    }
    assert forall|i: int|
        0 <= i < new.len() && (#[trigger] new[i]).verb == "PRIVMSG"@ implies new[i].params[0] == target by {
        if i < commands.len() {
            assert(new[i] == privmsg_v(target, lines[i]));
        } else {
            assert(new[i] == notices[i - commands.len()]);
        }
    }
}

/// Leaving out line breaks twice is leaving them out.
proof fn lemma_filter_twice(s: Seq<char>)
    ensures
        s.filter(|c: char| c != '\n').filter(|c: char| c != '\n') == s.filter(|c: char| c != '\n'),
    decreases s.len(),
{
    reveal(Seq::filter);
    let kept = |c: char| c != '\n';
    if s.len() > 0 {
        lemma_filter_twice(s.drop_last());
        let init = s.drop_last().filter(kept);
        if s.last() != '\n' {
            assert(init.push(s.last()).drop_last() =~= init);
        }
    }
}

/// A text that begins like a request to another client is no ciphertext.
proof fn lemma_no_cipher(plan: E2eSendPlan, wire_text: Seq<char>)
    requires
        wire_text.len() > 0,
        wire_text[0] == '\u{1}',
        glued(texts(plan.wire_lines@)) == wire_text.filter(|c: char| c != '\n'),
        CIPHER_MARK@.is_prefix_of(texts(plan.wire_lines@)[0]) || !plan.encrypted,
    ensures
        !plan.encrypted,
{
    reveal_strlit("+RPE2E01");
    let lines = texts(plan.wire_lines@);
    let rest = lines.skip(1);
    let first = wire_text.take(1);
    let kept = |c: char| c != '\n';
    assert(wire_text =~= first + wire_text.skip(1));
    Seq::filter_distributes_over_add(first, wire_text.skip(1), kept);
    assert(first.filter(kept) =~= seq!['\u{1}']) by {
        reveal(Seq::filter);
        assert(first.drop_last() =~= Seq::<char>::empty());
        assert(first.drop_last().filter(kept) =~= Seq::<char>::empty());
        assert(first.last() == '\u{1}');
    }
    assert(wire_text.filter(kept)[0] == '\u{1}');
    if plan.encrypted {
        assert(lines.len() > 0) by {
            if lines.len() == 0 {
                assert(glued(lines).len() == 0);
            }
        }
        assert(lines =~= seq![lines[0]] + rest);
        lemma_glued_both(seq![lines[0]], rest);
        lemma_glued_one(lines[0]);
        assert(CIPHER_MARK@ =~= lines[0].subrange(0, CIPHER_MARK@.len() as int));
        assert(CIPHER_MARK@[0] == '+');
        assert(lines[0][0] == lines[0].subrange(0, CIPHER_MARK@.len() as int)[0]);
        assert(lines[0][0] == '+');
        assert(glued(lines)[0] == '+');
    }
}

} // verus!
