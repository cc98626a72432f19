//! Announcing to others that a message is being typed.
//!
//! Peers are told `active` while a draft grows and `paused` once it rests. Both must be retracted: by
//! the message itself, or by `done`. Within one buffer announcements are at least three seconds
//! apart.
use vstd::prelude::*;

use crate::collections::StrMap;
use crate::text::{opt_text, same};

verus! {

broadcast use vstd::string::group_string_axioms;

/// The least time between two announcements in one buffer, and how long a message mutes them.
pub const THROTTLE_MS: u64 = 3_000;

/// How long a draft may rest before it counts as paused.
pub const PAUSE_MS: u64 = 6_000;

/// What peers are told.
#[derive(Clone, Copy, Debug, PartialEq, Eq, Structural)]
pub enum TypingState {
    Active,
    Paused,
    Done,
}

/// Where something is typed.
#[derive(Debug)]
pub enum TypingSource {
    Tui,
    Web(String),
}

/// What one source is typing.
#[derive(Debug)]
pub struct Draft {
    pub buffer_id: String,
    /// Whether there is something to announce.
    pub active: bool,
    /// When the draft last changed.
    pub at: u64,
}

/// What the peers of a buffer were last told.
#[derive(Clone, Copy, Debug, PartialEq, Eq, Structural)]
pub struct Told {
    pub state: TypingState,
    pub at: u64,
}

/// The announcements of one client.
pub struct Typing {
    pub tui: Option<Draft>,
    /// The drafts of browser sessions.
    pub web: StrMap<Draft>,
    /// What is still to be retracted, per buffer.
    pub told: StrMap<Told>,
    /// When a message was last sent, per buffer.
    pub messages: StrMap<u64>,
}

/// `now` is at least `span` after `then`.
pub open spec fn elapsed(now: u64, then: u64, span: u64) -> bool {
    now >= then && now - then >= span
}

/// `now` is at least `span` after `then`.
pub fn has_elapsed(now: u64, then: u64, span: u64) -> (r: bool)
    ensures
        r == elapsed(now, then, span),
{
    now >= then && now - then >= span
}

/// A draft that is to be announced in a buffer.
pub open spec fn composes(draft: Draft, buffer_id: Seq<char>) -> bool {
    draft.active && draft.buffer_id@ == buffer_id
}

/// A draft that is to be announced in a buffer and has not rested.
pub open spec fn grows(draft: Draft, buffer_id: Seq<char>, now: u64) -> bool {
    composes(draft, buffer_id) && !elapsed(now, draft.at, PAUSE_MS)
}

impl Typing {
    /// Somebody composes a message in a buffer.
    pub open spec fn composing(&self, buffer_id: Seq<char>) -> bool {
        ||| self.tui matches Some(draft) && composes(draft, buffer_id)
        ||| exists|k: Seq<char>| #[trigger] self.web@.contains_key(k) && composes(self.web@[k], buffer_id)
    }

    /// Somebody's draft in a buffer has not rested.
    pub open spec fn growing(&self, buffer_id: Seq<char>, now: u64) -> bool {
        ||| self.tui matches Some(draft) && grows(draft, buffer_id, now)
        ||| exists|k: Seq<char>| #[trigger]
            self.web@.contains_key(k) && grows(self.web@[k], buffer_id, now)
    }

    /// What the peers of a buffer with an open announcement are to be told now.
    pub open spec fn due(&self, buffer_id: Seq<char>, now: u64) -> Option<TypingState> {
        let told = self.told@[buffer_id];
        if !elapsed(now, told.at, THROTTLE_MS) {
            None
        } else if self.growing(buffer_id, now) {
            Some(TypingState::Active)
        } else if self.composing(buffer_id) {
            if told.state == TypingState::Paused {
                None
            } else {
                Some(TypingState::Paused)
            }
        } else {
            Some(TypingState::Done)
        }
    }

    /// What all peers are to be told, for the buffers in order.
    pub open spec fn due_in(&self, buffers: Seq<Seq<char>>, now: u64) -> Seq<(Seq<char>, TypingState)>
        decreases buffers.len(),
    {
        if buffers.len() == 0 {
            Seq::empty()
        } else {
            let init = self.due_in(buffers.drop_last(), now);
            match self.due(buffers.last(), now) {
                Some(state) => init.push((buffers.last(), state)),
                None => init,
            }
        }
    }

    /// Whether an announcement may go out in a buffer: none went out just now, nor a message.
    pub open spec fn may_announce(&self, buffer_id: Seq<char>, now: u64) -> bool {
        &&& self.told@.contains_key(buffer_id) ==> elapsed(now, self.told@[buffer_id].at, THROTTLE_MS)
        &&& self.messages@.contains_key(buffer_id) ==> elapsed(now, self.messages@[buffer_id], THROTTLE_MS)
    }

    /// Nothing typed, nothing announced.
    pub fn new() -> (r: Typing)
        ensures
            r.tui is None,
            r.web@ == Map::<Seq<char>, Draft>::empty(),
            r.told@ == Map::<Seq<char>, Told>::empty(),
            r.messages@ == Map::<Seq<char>, u64>::empty(),
    {
        Typing { tui: None, web: StrMap::new(), told: StrMap::new(), messages: StrMap::new() }
    }

    /// What the peers of a buffer were last told, while it is still to be retracted.
    pub fn sent_state(&self, buffer_id: &str) -> (r: Option<TypingState>)
        ensures
            r == (if self.told@.contains_key(buffer_id@) {
                Some(self.told@[buffer_id@].state)
            } else {
                None
            }),
    {
        match self.told.get(buffer_id) {
            Some(told) => Some(told.state),
            None => None,
        }
    }

    /// When a message was last sent in a buffer.
    pub fn last_message_at(&self, buffer_id: &str) -> (r: Option<u64>)
        ensures
            r == (if self.messages@.contains_key(buffer_id@) {
                Some(self.messages@[buffer_id@])
            } else {
                None
            }),
    {
        match self.messages.get(buffer_id) {
            Some(at) => Some(*at),
            None => None,
        }
    }

    /// The buffer that a source types in.
    pub fn source_buffer(&self, source: &TypingSource) -> (r: Option<String>)
        ensures
            opt_text(r) == (match source {
                TypingSource::Tui => match self.tui {
                    Some(draft) => Some(draft.buffer_id@),
                    None => None,
                },
                TypingSource::Web(session) => if self.web@.contains_key(session@) {
                    Some(self.web@[session@].buffer_id@)
                } else {
                    None
                },
            }),
    {
        match source {
            TypingSource::Tui => match &self.tui {
                Some(draft) => Some(draft.buffer_id.clone()),
                None => None,
            },
            TypingSource::Web(session) => match self.web.get(session.as_str()) {
                Some(draft) => Some(draft.buffer_id.clone()),
                None => None,
            },
        }
    }

    /// Whether a source has something to announce.
    pub fn source_is_active(&self, source: &TypingSource) -> (r: Option<bool>)
        ensures
            r == (match source {
                TypingSource::Tui => match self.tui {
                    Some(draft) => Some(draft.active),
                    None => None,
                },
                TypingSource::Web(session) => if self.web@.contains_key(session@) {
                    Some(self.web@[session@].active)
                } else {
                    None
                },
            }),
    {
        match source {
            TypingSource::Tui => match &self.tui {
                Some(draft) => Some(draft.active),
                None => None,
            },
            TypingSource::Web(session) => match self.web.get(session.as_str()) {
                Some(draft) => Some(draft.active),
                None => None,
            },
        }
    }

    /// An announcement went out.
    pub fn confirm_sent(&mut self, buffer_id: &str, state: TypingState, now: u64)
        ensures
            *final(self) == (Typing { told: final(self).told, ..*old(self) }),
            final(self).told@ == (if state == TypingState::Done {
                old(self).told@.remove(buffer_id@)
            } else {
                old(self).told@.insert(buffer_id@, Told { state, at: now })
            }),
    {
        if state == TypingState::Done {
            self.told.remove(buffer_id);
        } else {
            self.told.insert(buffer_id.to_string(), Told { state, at: now });
        }
    }

    /// A message reached the peers of a buffer: it retracts what they were told, and mutes
    /// announcements for a while.
    pub fn note_message_sent(&mut self, buffer_id: &str, now: u64)
        ensures
            *final(self) == (Typing {
                told: final(self).told,
                messages: final(self).messages,
                ..*old(self)
            }),
            final(self).told@ == old(self).told@.remove(buffer_id@),
            final(self).messages@ == old(self).messages@.insert(buffer_id@, now),
    {
        self.told.remove(buffer_id);
        self.messages.insert(buffer_id.to_string(), now);
    }

    /// Forgets a buffer in which nothing may be announced any more.
    pub fn forget(&mut self, buffer_id: &str)
        ensures
            *final(self) == (Typing { told: final(self).told, ..*old(self) }),
            final(self).told@ == old(self).told@.remove(buffer_id@),
    {
        self.told.remove(buffer_id);
    }

    /// The terminal's draft changed.
    pub fn set_tui(&mut self, buffer_id: Option<&str>, active: bool, now: u64)
        ensures
            *final(self) == (Typing { tui: final(self).tui, ..*old(self) }),
            match (buffer_id, final(self).tui) {
                (Some(b), Some(draft)) => draft.buffer_id@ == b@ && draft.active == active && draft.at
                    == now,
                (None, None) => true,
                _ => false,
            },
    {
        self.tui = match buffer_id {
            Some(b) => Some(Draft { buffer_id: b.to_string(), active, at: now }),
            None => None,
        };
    }

    /// The draft of a browser session changed.
    pub fn set_web(&mut self, session: &str, buffer_id: &str, active: bool, now: u64)
        ensures
            *final(self) == (Typing { web: final(self).web, ..*old(self) }),
            final(self).web@ == old(self).web@.insert(session@, final(self).web@[session@]),
            final(self).web@[session@].buffer_id@ == buffer_id@,
            final(self).web@[session@].active == active,
            final(self).web@[session@].at == now,
    {
        self.web.insert(
            session.to_string(),
            Draft { buffer_id: buffer_id.to_string(), active, at: now },
        );
    }

    /// Moves the terminal's draft to the active buffer where that has changed; without an active
    /// buffer there is no draft.
    pub fn follow(&mut self, active: Option<&str>, now: u64)
        ensures
            *final(self) == (Typing { tui: final(self).tui, ..*old(self) }),
            match old(self).tui {
                None => final(self).tui is None,
                Some(draft) => match active {
                    None => final(self).tui is None,
                    Some(b) => if b@ == draft.buffer_id@ {
                        final(self).tui == old(self).tui
                    } else {
                        final(self).tui matches Some(moved) && moved.buffer_id@ == b@ && moved.active
                            == draft.active && moved.at == now
                    },
                },
            },
    {
        let (moved, keep) = match (&self.tui, active) {
            (Some(draft), Some(b)) => if same(draft.buffer_id.as_str(), b) {
                (None, true)
            } else {
                (Some(Draft { buffer_id: b.to_string(), active: draft.active, at: now }), false)
            },
            _ => (None, false),
        };
        if !keep {
            self.tui = moved;
        }
    }

    fn is_composing(&self, buffer_id: &str, now: u64, fresh: bool) -> (r: bool)
        ensures
            r == (if fresh {
                self.growing(buffer_id@, now)
            } else {
                self.composing(buffer_id@)
            }),
    {
        match &self.tui {
            Some(draft) => {
                if draft.active && same(draft.buffer_id.as_str(), buffer_id) && (!fresh || !has_elapsed(
                    now,
                    draft.at,
                    PAUSE_MS,
                )) {
                    return true;
                }
            },
            None => {},
        }
        let n: usize = self.web.len();
        let mut i: usize = 0;
        while i < n
            invariant
                n == self.web.keys().len(),
                i <= n,
                self.web.ordered(),
                !(self.tui matches Some(draft) && composes(draft, buffer_id@) && (!fresh || !elapsed(
                    now,
                    draft.at,
                    PAUSE_MS,
                ))),
                forall|j: int|
                    0 <= j < i ==> {
                        let draft = self.web@[#[trigger] self.web.keys()[j]];
                        !(composes(draft, buffer_id@) && (!fresh || !elapsed(now, draft.at, PAUSE_MS)))
                    },
            decreases n - i,
        {
            let draft = self.web.value_at(i);
            if draft.active && same(draft.buffer_id.as_str(), buffer_id) && (!fresh || !has_elapsed(
                now,
                draft.at,
                PAUSE_MS,
            )) {
                assert(self.web@.contains_key(self.web.keys()[i as int]));
                return true;
            }
            i = i + 1;
        }
        proof {
            assert forall|k: Seq<char>| #[trigger] self.web@.contains_key(k) implies !(composes(
                self.web@[k],
                buffer_id@,
            ) && (!fresh || !elapsed(now, self.web@[k].at, PAUSE_MS))) by {
                let j = self.web.keys().index_of(k);
                assert(self.web.keys()[j] == k);
            }
        }
        false
    }

    /// What peers are to be told now.
    pub fn on_tick(&self, now: u64) -> (r: Vec<(String, TypingState)>)
        ensures
            r@.map_values(|p: (String, TypingState)| (p.0@, p.1)) == self.due_in(self.told.keys(), now),
    {
        let mut r: Vec<(String, TypingState)> = Vec::new();
        let ghost view = |p: (String, TypingState)| (p.0@, p.1);
        let n: usize = self.told.len();
        let mut i: usize = 0;
        assert(self.told.keys().take(0) =~= Seq::<Seq<char>>::empty());
        assert(r@.map_values(view) =~= Seq::<(Seq<char>, TypingState)>::empty());
        while i < n
            invariant
                n == self.told.keys().len(),
                i <= n,
                view == (|p: (String, TypingState)| (p.0@, p.1)),
                r@.map_values(view) == self.due_in(self.told.keys().take(i as int), now),
            decreases n - i,
        {
            let key = self.told.key_at(i);
            let told = self.told.value_at(i);
            let ghost before = r@.map_values(view);
            assert(self.told.keys().take(i + 1).drop_last() =~= self.told.keys().take(i as int));
            assert(self.told.keys().take(i + 1).last() == key@);
            let state = if !has_elapsed(now, told.at, THROTTLE_MS) {
                None
            } else if self.is_composing(key.as_str(), now, true) {
                Some(TypingState::Active)
            } else if self.is_composing(key.as_str(), now, false) {
                if told.state == TypingState::Paused {
                    None
                } else {
                    Some(TypingState::Paused)
                }
            } else {
                Some(TypingState::Done)
            };
            assert(state == self.due(key@, now));
            match state {
                Some(state) => {
                    r.push((key.clone(), state));
                    assert(r@.map_values(view) =~= before.push((key@, state)));
                },
                None => {},
            }
            i = i + 1;
        }
        assert(self.told.keys().take(n as int) =~= self.told.keys());
        r
    }

    /// Whether an announcement may go out in a buffer.
    pub fn announcement_allowed(&self, buffer_id: &str, now: u64) -> (r: bool)
        ensures
            r == self.may_announce(buffer_id@, now),
    {
        let quiet = match self.told.get(buffer_id) {
            Some(told) => has_elapsed(now, told.at, THROTTLE_MS),
            None => true,
        };
        let unmuted = match self.messages.get(buffer_id) {
            Some(at) => has_elapsed(now, *at, THROTTLE_MS),
            None => true,
        };
        quiet && unmuted
    }
}

/// A buffer that nobody composes in is told `done` once its announcement may be followed up.
pub proof fn abandoned_buffer_is_retracted(typing: Typing, buffer_id: Seq<char>, now: u64)
    requires
        typing.told@.contains_key(buffer_id),
        elapsed(now, typing.told@[buffer_id].at, THROTTLE_MS),
        !typing.composing(buffer_id),
    ensures
        typing.due(buffer_id, now) == Some(TypingState::Done),
{
    assert(!typing.growing(buffer_id, now));
}

/// What is due in a buffer, and nothing else of it, is among what is due in all of them.
proof fn lemma_due_in(typing: Typing, buffers: Seq<Seq<char>>, now: u64, k: Seq<char>)
    requires
        buffers.no_duplicates(),
    ensures
        forall|state: TypingState| #[trigger]
            typing.due_in(buffers, now).contains((k, state)) <==> buffers.contains(k) && typing.due(k, now)
                == Some(state),
    decreases buffers.len(),
{
    if buffers.len() > 0 {
        let rest = buffers.drop_last();
        let last = buffers.last();
        let init = typing.due_in(rest, now);
        let all = typing.due_in(buffers, now);
        lemma_due_in(typing, rest, now, k);
        assert forall|state: TypingState| #[trigger] all.contains((k, state)) <==> buffers.contains(k)
            && typing.due(k, now) == Some(state) by {
            if all.contains((k, state)) {
                let w = all.index_of((k, state));
                if w < init.len() {
                    assert(init[w] == (k, state));
                    assert(init.contains((k, state)));
                    assert(buffers[rest.index_of(k)] == k);
                } else {
                    assert(buffers[buffers.len() - 1] == k);
                }
            }
            if buffers.contains(k) && typing.due(k, now) == Some(state) {
                let j = buffers.index_of(k);
                if j < rest.len() {
                    assert(rest[j] == k);
                    assert(init.contains((k, state)));
                    assert(all[init.index_of((k, state))] == (k, state));
                } else {
                    assert(all[all.len() - 1] == (k, state));
                }
            }
        }
    }
}

/// A draft in a buffer that somebody, at the terminal or in a browser, has something to announce of.
pub open spec fn drafted(typing: Typing, k: Seq<char>, draft: Draft) -> bool {
    &&& typing.tui == Some(draft) || exists|s: Seq<char>| #[trigger]
        typing.web@.contains_key(s) && typing.web@[s] == draft
    &&& draft.active
    &&& draft.buffer_id@ == k
}

/// Peers are told what happens, and not too often. Within three seconds of an announcement a buffer's peers
/// are told nothing. After that they are told of every draft that changed within the last six seconds, that
/// the writers rest where none did (once), and that it is over where no draft is left. Nothing is said in a
/// buffer whose peers were told nothing before.
pub proof fn peers_are_told_what_happens(
    typing: Typing,
    now: u64,
    told: Seq<(Seq<char>, TypingState)>,
    k: Seq<char>,
    draft: Draft,
)
    requires
        typing.told.ordered(),
        told == typing.due_in(typing.told.keys(), now),
    ensures
        !typing.told@.contains_key(k) || now < typing.told@[k].at + 3_000 ==> forall|state: TypingState|
            !#[trigger] told.contains((k, state)),
        typing.told@.contains_key(k) && now >= typing.told@[k].at + 3_000 && drafted(typing, k, draft) && now
            < draft.at + 6_000 ==> told.contains((k, TypingState::Active)),
        typing.told@.contains_key(k) && now >= typing.told@[k].at + 3_000 && drafted(typing, k, draft) && (
        forall|d: Draft| #[trigger] drafted(typing, k, d) ==> now >= d.at + 6_000) ==> (told.contains(
            (k, TypingState::Paused),
        ) <==> typing.told@[k].state != TypingState::Paused) && !told.contains((k, TypingState::Done)),
        typing.told@.contains_key(k) && now >= typing.told@[k].at + 3_000 && (forall|d: Draft| !#[trigger] drafted(
            typing,
            k,
            d,
        )) ==> told.contains((k, TypingState::Done)),
{
    let keys = typing.told.keys();
    lemma_due_in(typing, keys, now, k);
    assert(typing.told@.contains_key(k) <==> keys.contains(k));
    assert forall|s: Seq<char>| #[trigger] typing.web@.contains_key(s) && composes(typing.web@[s], k) implies drafted(
        typing,
        k,
        typing.web@[s],
    ) by {}
    if typing.tui is Some && composes(typing.tui->0, k) {
        assert(drafted(typing, k, typing.tui->0));
    }
}

/// Only one announcement per buffer is due at a time.
pub proof fn announcements_do_not_contradict(typing: Typing, now: u64, k: Seq<char>, a: TypingState, b: TypingState)
    requires
        typing.told.ordered(),
        typing.due_in(typing.told.keys(), now).contains((k, a)),
        typing.due_in(typing.told.keys(), now).contains((k, b)),
    ensures
        a == b,
{
    lemma_due_in(typing, typing.told.keys(), now, k);
}

} // verus!
