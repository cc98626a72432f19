//! What is known of the requests for a connection's history.
use vstd::prelude::*;

use crate::collections::{StrMap, StrSet};
use crate::text::{lower, lower_seq};

verus! {

broadcast use vstd::string::group_string_axioms;

/// How long a request may go unanswered, in milliseconds.
pub const REQUEST_MS: u64 = 90_000;

/// What is known of the requests for a connection's history. Targets are kept in lower case.
pub struct ChatHistory {
    /// When the request that is under way was sent, in monotonic milliseconds.
    pub in_flight: StrMap<u64>,
    /// Conversations with nothing older left on the server.
    pub exhausted: StrSet,
    /// Conversations that the user closed.
    pub closed: StrSet,
    /// Conversations whose gap since the last connection was asked for.
    pub gapfilled: StrSet,
    /// Whether the last request succeeded.
    pub outcomes: StrMap<bool>,
    /// When the connection came up, in milliseconds since 1970: the gap to fill ends there.
    pub gapfill_cutoff: Option<i64>,
}

/// The most rows to ask for, by what the server takes.
pub open spec fn clamped(wanted: u64, max: Option<u64>) -> u64 {
    match max {
        Some(m) if 0 < m < wanted => m,
        _ => wanted,
    }
}

/// The most rows to ask for, by what the server takes.
pub fn clamp_limit(wanted: u64, max: Option<u64>) -> (r: u64)
    ensures
        r == clamped(wanted, max),
{
    match max {
        Some(m) => if 0 < m && m < wanted {
            m
        } else {
            wanted
        },
        None => wanted,
    }
}

impl ChatHistory {
    /// A request for a target is under way.
    pub open spec fn pending(&self, target: Seq<char>) -> bool {
        self.in_flight@.contains_key(lower_seq(target))
    }

    /// Whether the last request for a target succeeded.
    pub open spec fn succeeded(&self, target: Seq<char>) -> bool {
        self.outcomes@.contains_key(lower_seq(target)) && self.outcomes@[lower_seq(target)]
    }

    /// Nothing was asked for yet.
    pub open spec fn untouched(&self) -> bool {
        &&& self.in_flight@ == Map::<Seq<char>, u64>::empty()
        &&& self.in_flight.keys() == Seq::<Seq<char>>::empty()
        &&& self.exhausted@ == Set::<Seq<char>>::empty()
        &&& self.closed@ == Set::<Seq<char>>::empty()
        &&& self.gapfilled@ == Set::<Seq<char>>::empty()
        &&& self.outcomes@ == Map::<Seq<char>, bool>::empty()
        &&& self.outcomes.keys() == Seq::<Seq<char>>::empty()
        &&& self.gapfill_cutoff is None
    }

    /// Nothing was asked for yet.
    pub fn new() -> (r: ChatHistory)
        ensures
            r.untouched(),
    {
        ChatHistory {
            in_flight: StrMap::new(),
            exhausted: StrSet::new(),
            closed: StrSet::new(),
            gapfilled: StrSet::new(),
            outcomes: StrMap::new(),
            gapfill_cutoff: None,
        }
    }

    /// Whether a request for a target is under way.
    pub fn any_in_flight(&self, target: &str) -> (r: bool)
        ensures
            r == self.pending(target@),
    {
        self.in_flight.contains(lower(target).as_str())
    }

    /// How many requests are under way.
    pub fn pending_count(&self) -> (r: usize)
        ensures
            r == self.in_flight.keys().len(),
    {
        self.in_flight.len()
    }

    /// Notes that a request was sent.
    pub fn sent(&mut self, target: &str, now: u64)
        ensures
            *final(self) == (ChatHistory { in_flight: final(self).in_flight, ..*old(self) }),
            final(self).in_flight@ == old(self).in_flight@.insert(lower_seq(target@), now),
    {
        self.in_flight.insert(lower(target), now);
    }

    /// Notes how a request ended.
    pub fn complete_target(&mut self, target: &str, ok: bool)
        ensures
            *final(self) == (ChatHistory {
                in_flight: final(self).in_flight,
                outcomes: final(self).outcomes,
                ..*old(self)
            }),
            final(self).in_flight@ == old(self).in_flight@.remove(lower_seq(target@)),
            final(self).outcomes@ == old(self).outcomes@.insert(lower_seq(target@), ok),
    {
        let key = lower(target);
        let _sent = self.in_flight.remove(key.as_str());
        self.outcomes.insert(key, ok);
    }

    /// Whether nothing older is left on the server.
    pub fn is_before_exhausted(&self, target: &str) -> (r: bool)
        ensures
            r == self.exhausted@.contains(lower_seq(target@)),
    {
        self.exhausted.contains(lower(target).as_str())
    }

    /// Whether the user closed a conversation.
    pub fn was_closed(&self, target: &str) -> (r: bool)
        ensures
            r == self.closed@.contains(lower_seq(target@)),
    {
        self.closed.contains(lower(target).as_str())
    }

    /// Whether the gap since the last connection was asked for.
    pub fn is_connect_gapfilled(&self, target: &str) -> (r: bool)
        ensures
            r == self.gapfilled@.contains(lower_seq(target@)),
    {
        self.gapfilled.contains(lower(target).as_str())
    }

    /// Lets the gap since the last connection be asked for again.
    pub fn clear_connect_gapfilled(&mut self, target: &str)
        ensures
            *final(self) == (ChatHistory { gapfilled: final(self).gapfilled, ..*old(self) }),
            final(self).gapfilled@ == old(self).gapfilled@.remove(lower_seq(target@)),
    {
        let _was = self.gapfilled.remove(lower(target).as_str());
    }

    /// Whether the last request for a target succeeded.
    pub fn last_request_succeeded(&self, target: &str) -> (r: bool)
        ensures
            r == self.succeeded(target@),
    {
        match self.outcomes.get(lower(target).as_str()) {
            Some(ok) => *ok,
            None => false,
        }
    }

    /// A request is older than it may get.
    pub open spec fn stale(&self, target: Seq<char>, now: u64) -> bool {
        self.in_flight@.contains_key(target) && now - self.in_flight@[target] >= REQUEST_MS
    }

    /// Gives up requests that the server never answered: a later one may be sent again. Such a request
    /// says nothing about what is left on the server.
    pub fn clear_stale(&mut self, now: u64)
        ensures
            *final(self) == (ChatHistory { in_flight: final(self).in_flight, ..*old(self) }),
            forall|t: Seq<char>| #[trigger]
                final(self).in_flight@.contains_key(t) <==> old(self).in_flight@.contains_key(t)
                    && !old(self).stale(t, now),
            forall|t: Seq<char>| #[trigger]
                final(self).in_flight@.contains_key(t) ==> final(self).in_flight@[t]
                    == old(self).in_flight@[t],
    {
        let ghost before = *self;
        let ghost keys = self.in_flight.keys();
        let n: usize = self.in_flight.len();
        let mut keep: Vec<bool> = Vec::new();
        let mut i: usize = 0;
        while i < n
            invariant
                *self == before,
                keys == self.in_flight.keys(),
                n == keys.len(),
                i <= n,
                keep@.len() == i,
                self.in_flight.ordered(),
                forall|j: int| 0 <= j < i ==> (#[trigger] keep@[j] <==> !before.stale(keys[j], now)),
            decreases n - i,
        {
            let sent: u64 = *self.in_flight.value_at(i);
            keep.push(!(now >= sent && now - sent >= REQUEST_MS));
            i = i + 1;
        }
        self.in_flight.retain(&keep);
        proof {
            assert forall|t: Seq<char>| #[trigger] self.in_flight@.contains_key(t)
                <==> before.in_flight@.contains_key(t) && !before.stale(t, now) by {
                if before.in_flight@.contains_key(t) {
                    let j = keys.index_of(t);
                    assert(keys[j] == t);
                    assert(keep@[j] <==> !before.stale(keys[j], now));
                }
            }
        }
    }
}

} // verus!
