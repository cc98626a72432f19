//! How far conversations have been read, kept in step with the bouncer.
use vstd::prelude::*;

use crate::app::{lemma_took_one, IrcHandle};
use crate::collections::{StrMap, StrSet};
use crate::monitor::{doubled, escape_percent};
use crate::state::{
    buffer_id_seq, make_buffer_id, ActivityLevel, AppState, Buffer, BufferType, Connection,
    ConnectionStatus,
};
use crate::text::{
    before_seq, comes_before, concat, cut_first, join_from, join_seq, lemma_before_total,
    lemma_before_transitive, lower, lower_seq, opt_text, same, same_ignoring_case, split_once, strip_prefix,
    texts,
};
use crate::times::{parse_rfc3339_millis, rfc3339_millis, rfc3339_parsed, rfc3339_seq, FIVE_DIGIT_YEARS};
use crate::typing::{elapsed, has_elapsed};
use crate::wire::{command1, command2, lemma_took_nothing, lemma_took_twice, untagged, CommandV, IrcSender};

verus! {

broadcast use vstd::string::group_string_axioms;

/// The most requests of one round over all connections.
pub const ROUND_BUDGET: usize = 8;

/// The most unanswered requests of one connection.
pub const PENDING_MAX: usize = 128;

/// How long an answer may take.
pub const PENDING_MS: u64 = 45_000;

/// How long after a query the same one is sent again.
pub const QUERY_MS: u64 = 30_000;

/// How long after a marker the same one is sent again.
pub const SAME_MARKER_MS: u64 = 5_000;

/// How long after a marker another one is sent.
pub const OTHER_MARKER_MS: u64 = 1_000;

/// How far a conversation has been read, as the bouncer says it.
#[derive(Clone, Copy, Debug, PartialEq, Eq, Structural)]
pub enum Marker {
    Unknown,
    Timestamp(i64),
}

/// A marker that was sent.
#[derive(Clone, Copy, Debug, PartialEq, Eq, Structural)]
pub struct SentMarker {
    pub millis: i64,
    pub at: u64,
}

/// A request without an answer yet; without a timestamp it is a query.
#[derive(Debug)]
pub struct PendingMarker {
    pub target: String,
    pub timestamp: Option<i64>,
    pub sent_at: u64,
}

/// The model of a [`PendingMarker`].
pub struct PendingMarkerV {
    pub target: Seq<char>,
    pub timestamp: Option<i64>,
    pub sent_at: u64,
}

impl View for PendingMarker {
    type V = PendingMarkerV;

    open spec fn view(&self) -> PendingMarkerV {
        PendingMarkerV { target: self.target@, timestamp: self.timestamp, sent_at: self.sent_at }
    }
}

/// The models of a list of requests.
pub open spec fn pending_views(v: Seq<PendingMarker>) -> Seq<PendingMarkerV> {
    v.map_values(|p: PendingMarker| p@)
}

/// The read markers of one connection.
pub struct ReadMarkers {
    pub scope: String,
    /// What the bouncer confirmed, `None` for a conversation without a marker.
    pub confirmed: StrMap<Option<i64>>,
    /// What is still to be confirmed.
    pub desired: StrMap<i64>,
    pub sent: StrMap<SentMarker>,
    pub queried: StrMap<u64>,
    pub rejected: StrMap<i64>,
    pub rejected_queries: StrSet,
    pub pending: Vec<PendingMarker>,
    pub failures: StrMap<u8>,
    pub retry_after: StrMap<u64>,
}

/// One marker is at least another; none at all is the least.
pub open spec fn at_least(a: Option<i64>, b: Option<i64>) -> bool {
    match (a, b) {
        (_, None) => true,
        (None, Some(_)) => false,
        (Some(x), Some(y)) => x >= y,
    }
}

/// What a marker parameter says; `time` is what its timestamp stands for.
pub open spec fn marker_of(value: Seq<char>, time: Option<i64>) -> Option<Marker> {
    if value == "*"@ {
        Some(Marker::Unknown)
    } else if "timestamp="@.is_prefix_of(value) {
        match time {
            Some(millis) => Some(Marker::Timestamp(millis)),
            None => None,
        }
    } else {
        None
    }
}

/// What a marker parameter says, given what the text behind `timestamp=` stands for.
pub fn marker_from(value: &str, time: Option<i64>) -> (r: Option<Marker>)
    ensures
        r == marker_of(value@, time),
{
    if same(value, "*") {
        return Some(Marker::Unknown);
    }
    match strip_prefix(value, "timestamp=") {
        None => None,
        Some(_) => match time {
            Some(millis) => Some(Marker::Timestamp(millis)),
            None => None,
        },
    }
}

/// What a marker parameter says.
pub fn parse_marker(value: &str) -> (r: Option<Marker>)
    ensures
        r == marker_of(value@, rfc3339_parsed(value@.skip("timestamp="@.len() as int))),
{
    let time = match strip_prefix(value, "timestamp=") {
        None => None,
        Some(time) => parse_rfc3339_millis(time.as_str()),
    };
    marker_from(value, time)
}

/// A time as a marker parameter.
pub open spec fn marker_seq(millis: i64) -> Seq<char> {
    "timestamp="@ + rfc3339_seq(millis)
}

/// A time as a marker parameter. From 1970 up to the year 9999 the parameter says that time again, so that
/// a bouncer that repeats it confirms what it was told.
pub fn marker_text(millis: i64) -> (r: String)
    ensures
        r@ == marker_seq(millis),
        0 <= millis < FIVE_DIGIT_YEARS ==> marker_of(
            r@,
            rfc3339_parsed(r@.skip("timestamp="@.len() as int)),
        ) == Some(Marker::Timestamp(millis)),
{
    let time = rfc3339_millis(millis);
    let r = concat("timestamp=", time.as_str());
    proof {
        reveal_strlit("timestamp=");
        reveal_strlit("*");
        assert(r@.skip("timestamp="@.len() as int) =~= time@);
        assert(r@[0] == 't' && "*"@[0] == '*');
        assert("timestamp="@ =~= r@.take("timestamp="@.len() as int));
    }
    r
}

/// A request that an answer leaves open: one for another target, or for a later marker.
pub open spec fn stays_open(p: PendingMarkerV, target: Seq<char>, marker: Option<i64>) -> bool {
    p.target != target || (p.timestamp matches Some(requested) && (marker matches Some(time) ==> requested
        > time))
}

/// The requests that an answer leaves open.
pub open spec fn open_requests(v: Seq<PendingMarkerV>, target: Seq<char>, marker: Option<i64>) -> Seq<
    PendingMarkerV,
>
    decreases v.len(),
{
    if v.len() == 0 {
        Seq::empty()
    } else {
        let init = open_requests(v.drop_last(), target, marker);
        if stays_open(v.last(), target, marker) {
            init.push(v.last())
        } else {
            init
        }
    }
}

/// The requests that are not too old.
pub open spec fn fresh_requests(v: Seq<PendingMarkerV>, now: u64) -> Seq<PendingMarkerV>
    decreases v.len(),
{
    if v.len() == 0 {
        Seq::empty()
    } else {
        let init = fresh_requests(v.drop_last(), now);
        if elapsed(now, v.last().sent_at, PENDING_MS) {
            init
        } else {
            init.push(v.last())
        }
    }
}

impl ReadMarkers {
    /// The confirmed marker of a target moves forward.
    pub open spec fn advances(&self, target: Seq<char>, marker: Option<i64>) -> bool {
        self.confirmed@.contains_key(target) ==> !at_least(self.confirmed@[target], marker)
    }

    /// An answer settles what is still to be confirmed.
    pub open spec fn settles(&self, target: Seq<char>, marker: Option<i64>) -> bool {
        marker matches Some(time) && self.desired@.contains_key(target) && self.desired@[target] <= time
    }

    /// What an answer for a target does.
    pub open spec fn received(&self, after: ReadMarkers, target: Seq<char>, marker: Option<i64>) -> bool {
        &&& after.scope == self.scope
        &&& after.queried == self.queried
        &&& pending_views(after.pending@) == open_requests(pending_views(self.pending@), target, marker)
        &&& after.rejected@ == self.rejected@.remove(target)
        &&& after.rejected_queries@ == self.rejected_queries@.remove(target)
        &&& after.failures@ == self.failures@.remove(target)
        &&& after.retry_after@ == self.retry_after@.remove(target)
        &&& if self.advances(target, marker) {
            &&& after.confirmed@ == self.confirmed@.insert(target, marker)
            &&& if self.settles(target, marker) {
                after.desired@ == self.desired@.remove(target) && after.sent@ == self.sent@.remove(target)
            } else {
                after.desired == self.desired && after.sent == self.sent
            }
        } else {
            after.confirmed == self.confirmed && after.desired == self.desired && after.sent == self.sent
        }
    }

    /// Nothing is known under a scope.
    pub open spec fn blank(&self, scope: Seq<char>) -> bool {
        &&& self.scope@ == scope
        &&& self.confirmed@ == Map::<Seq<char>, Option<i64>>::empty()
        &&& self.desired@ == Map::<Seq<char>, i64>::empty()
        &&& self.desired.keys() == Seq::<Seq<char>>::empty()
        &&& self.sent@ == Map::<Seq<char>, SentMarker>::empty()
        &&& self.queried@ == Map::<Seq<char>, u64>::empty()
        &&& self.rejected@ == Map::<Seq<char>, i64>::empty()
        &&& self.rejected_queries@ == Set::<Seq<char>>::empty()
        &&& self.pending@ == Seq::<PendingMarker>::empty()
        &&& self.failures@ == Map::<Seq<char>, u8>::empty()
        &&& self.retry_after@ == Map::<Seq<char>, u64>::empty()
    }

    /// The markers belong to a scope: those of another one are forgotten.
    pub open spec fn prepared(&self, after: ReadMarkers, scope: Seq<char>) -> bool {
        if self.scope@ == scope {
            after == *self
        } else {
            after.blank(scope)
        }
    }

    /// Nothing known under a scope.
    pub fn new(scope: &str) -> (r: ReadMarkers)
        ensures
            r.blank(scope@),
    {
        ReadMarkers {
            scope: scope.to_string(),
            confirmed: StrMap::new(),
            desired: StrMap::new(),
            sent: StrMap::new(),
            queried: StrMap::new(),
            rejected: StrMap::new(),
            rejected_queries: StrSet::new(),
            pending: Vec::new(),
            failures: StrMap::new(),
            retry_after: StrMap::new(),
        }
    }

    /// Makes the markers those of a scope.
    pub fn prepare_scope(&mut self, scope: &str)
        ensures
            old(self).prepared(*final(self), scope@),
    {
        if !same(self.scope.as_str(), scope) {
            *self = ReadMarkers::new(scope);
        }
    }

    /// Takes an answer of the bouncer. Tells whether the confirmed marker moved: it never moves
    /// backwards, nor back to unknown.
    pub fn receive(&mut self, target: &str, marker: Option<i64>) -> (r: bool)
        ensures
            r == old(self).advances(lower_seq(target@), marker),
            old(self).received(*final(self), lower_seq(target@), marker),
    {
        let ghost before = *self;
        let target = lower(target);
        let name = target.as_str();
        self.close_requests(name, marker);
        self.rejected.remove(name);
        self.rejected_queries.remove(name);
        self.failures.remove(name);
        self.retry_after.remove(name);
        match self.confirmed.get(name) {
            Some(previous) => {
                let reached = match (*previous, marker) {
                    (_, None) => true,
                    (None, Some(_)) => false,
                    (Some(x), Some(y)) => x >= y,
                };
                if reached {
                    return false;
                }
            },
            None => {},
        }
        let settled = match (marker, self.desired.get(name)) {
            (Some(time), Some(desired)) => *desired <= time,
            _ => false,
        };
        if settled {
            self.desired.remove(name);
            self.sent.remove(name);
        }
        self.confirmed.insert(target, marker);
        true
    }

    /// Drops the requests that an answer settles.
    fn close_requests(&mut self, target: &str, marker: Option<i64>)
        ensures
            *final(self) == (ReadMarkers { pending: final(self).pending, ..*old(self) }),
            pending_views(final(self).pending@) == open_requests(
                pending_views(old(self).pending@),
                target@,
                marker,
            ),
    {
        let ghost all = pending_views(self.pending@);
        let mut rest: Vec<PendingMarker> = Vec::new();
        std::mem::swap(&mut rest, &mut self.pending);
        let mut kept: Vec<PendingMarker> = Vec::new();
        let ghost mut i: int = 0;
        assert(all.take(0) =~= Seq::<PendingMarkerV>::empty());
        assert(pending_views(kept@) =~= Seq::<PendingMarkerV>::empty());
        while rest.len() > 0
            invariant
                0 <= i <= all.len(),
                pending_views(rest@) == all.skip(i),
                rest@.len() == all.len() - i,
                pending_views(kept@) == open_requests(all.take(i), target@, marker),
            decreases rest@.len(),
        {
            let ghost was = rest@;
            let p = rest.remove(0);
            proof {
                assert(pending_views(was)[0] == p@);
                assert(all.skip(i)[0] == all[i]);
                assert(all.take(i + 1).drop_last() =~= all.take(i));
                assert(pending_views(rest@) =~= all.skip(i + 1)) by {
                    assert forall|k: int| 0 <= k < rest@.len() implies pending_views(rest@)[k] == all.skip(
                        i + 1,
                    )[k] by {
                        assert(pending_views(was)[k + 1] == all.skip(i)[k + 1]);
                    }
                }
            }
            let open = if !same(p.target.as_str(), target) {
                true
            } else {
                match p.timestamp {
                    None => false,
                    Some(requested) => match marker {
                        None => true,
                        Some(time) => requested > time,
                    },
                }
            };
            if open {
                let ghost k0 = pending_views(kept@);
                let ghost pv = p@;
                kept.push(p);
                assert(pending_views(kept@) =~= k0.push(pv));
            }
            proof {
                i = i + 1;
            }
        }
        assert(all.take(all.len() as int) =~= all);
        self.pending = kept;
    }

    /// Drops the requests that are too old.
    fn expire_requests(&mut self, now: u64)
        ensures
            *final(self) == (ReadMarkers { pending: final(self).pending, ..*old(self) }),
            pending_views(final(self).pending@) == fresh_requests(pending_views(old(self).pending@), now),
    {
        let ghost all = pending_views(self.pending@);
        let mut rest: Vec<PendingMarker> = Vec::new();
        std::mem::swap(&mut rest, &mut self.pending);
        let mut kept: Vec<PendingMarker> = Vec::new();
        let ghost mut i: int = 0;
        assert(all.take(0) =~= Seq::<PendingMarkerV>::empty());
        assert(pending_views(kept@) =~= Seq::<PendingMarkerV>::empty());
        while rest.len() > 0
            invariant
                0 <= i <= all.len(),
                pending_views(rest@) == all.skip(i),
                rest@.len() == all.len() - i,
                pending_views(kept@) == fresh_requests(all.take(i), now),
            decreases rest@.len(),
        {
            let ghost was = rest@;
            let p = rest.remove(0);
            proof {
                assert(pending_views(was)[0] == p@);
                assert(all.skip(i)[0] == all[i]);
                assert(all.take(i + 1).drop_last() =~= all.take(i));
                assert(pending_views(rest@) =~= all.skip(i + 1)) by {
                    assert forall|k: int| 0 <= k < rest@.len() implies pending_views(rest@)[k] == all.skip(
                        i + 1,
                    )[k] by {
                        assert(pending_views(was)[k + 1] == all.skip(i)[k + 1]);
                    }
                }
            }
            if !has_elapsed(now, p.sent_at, PENDING_MS) {
                let ghost k0 = pending_views(kept@);
                let ghost pv = p@;
                kept.push(p);
                assert(pending_views(kept@) =~= k0.push(pv));
            }
            proof {
                i = i + 1;
            }
        }
        assert(all.take(all.len() as int) =~= all);
        self.pending = kept;
    }

    /// A connection is there anew: only what is still to be confirmed is kept, and only for the same
    /// network. Tells whether the network is another one.
    pub fn reconnect_read_markers(&mut self, scope: &str) -> (r: bool)
        ensures
            r == (old(self).scope@ != scope@),
            exists|middle: ReadMarkers|
                {
                    &&& #[trigger] old(self).prepared(middle, scope@)
                    &&& final(self).scope == middle.scope
                    &&& final(self).desired == middle.desired
                },
            final(self).confirmed@ == Map::<Seq<char>, Option<i64>>::empty(),
            final(self).sent@ == Map::<Seq<char>, SentMarker>::empty(),
            final(self).queried@ == Map::<Seq<char>, u64>::empty(),
            final(self).rejected@ == Map::<Seq<char>, i64>::empty(),
            final(self).rejected_queries@ == Set::<Seq<char>>::empty(),
            final(self).pending@ == Seq::<PendingMarker>::empty(),
            final(self).failures@ == Map::<Seq<char>, u8>::empty(),
            final(self).retry_after@ == Map::<Seq<char>, u64>::empty(),
    {
        let changed = !same(self.scope.as_str(), scope);
        self.prepare_scope(scope);
        let ghost middle = *self;
        assert(old(self).prepared(middle, scope@));
        self.confirmed = StrMap::new();
        self.sent = StrMap::new();
        self.queried = StrMap::new();
        self.rejected = StrMap::new();
        self.rejected_queries = StrSet::new();
        self.pending = Vec::new();
        self.failures = StrMap::new();
        self.retry_after = StrMap::new();
        changed
    }
}

/// Answers in any order leave a target's confirmed marker at least as far as it was.
pub proof fn confirmed_never_moves_back(
    before: ReadMarkers,
    after: ReadMarkers,
    target: Seq<char>,
    marker: Option<i64>,
    other: Seq<char>,
)
    requires
        before.received(after, target, marker),
        before.confirmed@.contains_key(other),
    ensures
        after.confirmed@.contains_key(other),
        at_least(after.confirmed@[other], before.confirmed@[other]),
{
}

/// A conversation by the key of its markers and by its name.
#[derive(Debug)]
pub struct Target {
    pub key: String,
    pub name: String,
}

/// The model of a [`Target`].
pub struct TargetV {
    pub key: Seq<char>,
    pub name: Seq<char>,
}

impl View for Target {
    type V = TargetV;

    open spec fn view(&self) -> TargetV {
        TargetV { key: self.key@, name: self.name@ }
    }
}

/// The models of a list of conversations.
pub open spec fn target_views(v: Seq<Target>) -> Seq<TargetV> {
    v.map_values(|t: Target| t@)
}

/// One time is before another; never is the earliest.
pub open spec fn earlier(a: Option<u64>, b: Option<u64>) -> bool {
    match (a, b) {
        (None, Some(_)) => true,
        (Some(x), Some(y)) => x < y,
        _ => false,
    }
}

impl ReadMarkers {
    /// When a target was last asked about or told.
    pub open spec fn last_request(&self, target: Seq<char>) -> Option<u64> {
        if self.sent@.contains_key(target) {
            Some(self.sent@[target].at)
        } else if self.queried@.contains_key(target) {
            Some(self.queried@[target])
        } else {
            None
        }
    }

    /// One target comes before another: what is still to be confirmed first, then what was not
    /// requested for longest, then by name.
    pub open spec fn prior(&self, a: Seq<char>, b: Seq<char>) -> bool {
        if self.desired@.contains_key(a) != self.desired@.contains_key(b) {
            self.desired@.contains_key(a)
        } else if self.last_request(a) != self.last_request(b) {
            earlier(self.last_request(a), self.last_request(b))
        } else {
            before_seq(a, b)
        }
    }

    /// The targets stand in order, and none stands twice.
    pub open spec fn prioritized(&self, v: Seq<TargetV>) -> bool {
        forall|i: int, j: int| 0 <= i < j < v.len() ==> self.prior(#[trigger] v[i].key, #[trigger] v[j].key)
    }

    proof fn lemma_prior(&self, a: Seq<char>, b: Seq<char>, c: Seq<char>)
        ensures
            !self.prior(a, a),
            a == b || self.prior(a, b) || self.prior(b, a),
            self.prior(a, b) && self.prior(b, c) ==> self.prior(a, c),
    {
        lemma_before_total(a, b);
        lemma_before_total(a, a);
        if before_seq(a, b) && before_seq(b, c) {
            lemma_before_transitive(a, b, c);
        }
    }

    fn last_request_of(&self, target: &str) -> (r: Option<u64>)
        ensures
            r == self.last_request(target@),
    {
        match self.sent.get(target) {
            Some(sent) => Some(sent.at),
            None => match self.queried.get(target) {
                Some(at) => Some(*at),
                None => None,
            },
        }
    }

    fn is_prior(&self, a: &str, b: &str) -> (r: bool)
        ensures
            r == self.prior(a@, b@),
    {
        let x = self.desired.contains(a);
        let y = self.desired.contains(b);
        if x != y {
            return x;
        }
        match (self.last_request_of(a), self.last_request_of(b)) {
            (None, None) => comes_before(a, b),
            (None, Some(_)) => true,
            (Some(_), None) => false,
            (Some(s), Some(t)) => if s != t {
                s < t
            } else {
                comes_before(a, b)
            },
        }
    }

    /// Puts a target at its place among ordered ones.
    fn insert_target(&self, list: &mut Vec<Target>, target: Target)
        requires
            self.prioritized(target_views(old(list)@)),
            forall|i: int| 0 <= i < old(list)@.len() ==> (#[trigger] old(list)@[i])@.key != target@.key,
        ensures
            self.prioritized(target_views(final(list)@)),
            forall|t: TargetV| #[trigger]
                target_views(final(list)@).contains(t) <==> target_views(old(list)@).contains(t) || t
                    == target@,
            final(list)@.len() == old(list)@.len() + 1,
    {
        let ghost was = target_views(list@);
        let ghost new = target@;
        let n: usize = list.len();
        let mut i: usize = 0;
        while i < n && self.is_prior(list[i].key.as_str(), target.key.as_str())
            invariant
                n == list@.len(),
                i <= n,
                was == target_views(list@),
                new == target@,
                forall|j: int| 0 <= j < i ==> self.prior(#[trigger] was[j].key, new.key),
            decreases n - i,
        {
            assert(was[i as int] == list@[i as int]@);
            i = i + 1;
        }
        proof {
            if i < n {
                assert(was[i as int] == list@[i as int]@);
                self.lemma_prior(new.key, was[i as int].key, new.key);
            }
        }
        list.insert(i, target);
        let ghost now = target_views(list@);
        proof {
            assert(now =~= was.insert(i as int, new));
            assert forall|a: int, b: int| 0 <= a < b < now.len() implies self.prior(
                #[trigger] now[a].key,
                #[trigger] now[b].key,
            ) by {
                let x = if a < i { a } else { a - 1 };
                let y = if b < i { b } else { b - 1 };
                if a != i && b != i {
                    assert(now[a] == was[x] && now[b] == was[y]);
                    assert(self.prior(was[x].key, was[y].key));
                } else if b == i {
                    assert(now[a] == was[a]);
                } else {
                    assert(now[b] == was[b - 1]);
                    if b - 1 > i {
                        assert(self.prior(was[i as int].key, was[b - 1].key));
                        self.lemma_prior(new.key, was[i as int].key, was[b - 1].key);
                    }
                }
            }
            assert forall|t: TargetV| #[trigger] now.contains(t) <==> was.contains(t) || t == new by {
                if was.contains(t) {
                    let k = was.index_of(t);
                    let k2 = if k < i { k } else { k + 1 };
                    assert(now[k2] == t);
                }
                if t == new {
                    assert(now[i as int] == t);
                }
                if now.contains(t) {
                    let k = now.index_of(t);
                    if k != i {
                        let k2 = if k < i { k } else { k - 1 };
                        assert(was[k2] == t);
                    }
                }
            }
        }
    }

    /// The conversations to look at, by key, with those that only the markers know.
    pub open spec fn all_targets(&self, targets: Map<Seq<char>, String>, t: TargetV) -> bool {
        if targets.contains_key(t.key) {
            t.name == targets[t.key]@
        } else {
            self.desired@.contains_key(t.key) && t.name == t.key
        }
    }

    /// The conversations to look at, the most urgent first.
    pub fn prioritized_targets(&self, targets: StrMap<String>) -> (r: Vec<Target>)
        ensures
            self.prioritized(target_views(r@)),
            forall|t: TargetV| #[trigger]
                target_views(r@).contains(t) <==> self.all_targets(targets@, t),
    {
        let mut r: Vec<Target> = Vec::new();
        let n: usize = targets.len();
        let ghost keys = targets.keys();
        let mut i: usize = 0;
        while i < n
            invariant
                n == keys.len(),
                keys == targets.keys(),
                targets.ordered(),
                i <= n,
                self.prioritized(target_views(r@)),
                forall|t: TargetV| #[trigger]
                    target_views(r@).contains(t) <==> keys.take(i as int).contains(t.key) && t.name
                        == targets@[t.key]@,
            decreases n - i,
        {
            let key = targets.key_at(i);
            let name = targets.value_at(i);
            let target = Target { key: key.clone(), name: name.clone() };
            let ghost was = r@;
            proof {
                assert forall|j: int| 0 <= j < r@.len() implies (#[trigger] r@[j])@.key != target@.key by {
                    assert(target_views(r@)[j] == r@[j]@);
                    assert(target_views(r@).contains(r@[j]@));
                    let a = keys.take(i as int).index_of(r@[j]@.key);
                    assert(keys[a] == r@[j]@.key);
                }
            }
            let ghost tv = target@;
            self.insert_target(&mut r, target);
            proof {
                assert(keys.take(i + 1) =~= keys.take(i as int).push(keys[i as int]));
                assert forall|t: TargetV| #[trigger] target_views(r@).contains(t) <==> keys.take(
                    i + 1,
                ).contains(t.key) && t.name == targets@[t.key]@ by {
                    if keys.take(i as int).contains(t.key) {
                        let a = keys.take(i as int).index_of(t.key);
                        assert(keys.take(i + 1)[a] == t.key);
                    }
                    if t.key == keys[i as int] {
                        assert(keys.take(i + 1)[i as int] == t.key);
                    }
                    if keys.take(i + 1).contains(t.key) && t.key != keys[i as int] {
                        let a = keys.take(i + 1).index_of(t.key);
                        assert(keys.take(i as int)[a] == t.key);
                    }
                    if target_views(was).contains(t) {
                        assert(keys.take(i as int).contains(t.key));
                    }
                    if t.key == tv.key && t.name == tv.name {
                        assert(t == tv);
                    }
                }
            }
            i = i + 1;
        }
        let m: usize = self.desired.len();
        let ghost wanted = self.desired.keys();
        let mut j: usize = 0;
        proof {
            assert(keys.take(n as int) =~= keys);
            assert forall|t: TargetV| #[trigger] target_views(r@).contains(t) <==> (targets@.contains_key(
                t.key,
            ) && t.name == targets@[t.key]@) by {
            }
        }
        while j < m
            invariant
                m == wanted.len(),
                wanted == self.desired.keys(),
                self.desired.ordered(),
                j <= m,
                self.prioritized(target_views(r@)),
                forall|t: TargetV| #[trigger]
                    target_views(r@).contains(t) <==> (if targets@.contains_key(t.key) {
                        t.name == targets@[t.key]@
                    } else {
                        wanted.take(j as int).contains(t.key) && t.name == t.key
                    }),
            decreases m - j,
        {
            let key = self.desired.key_at(j);
            let ghost was = r@;
            proof {
                assert(wanted.take(j + 1) =~= wanted.take(j as int).push(wanted[j as int]));
                assert forall|k: Seq<char>| #[trigger] wanted.take(j + 1).contains(k) <==> wanted.take(
                    j as int,
                ).contains(k) || k == wanted[j as int] by {
                    if wanted.take(j as int).contains(k) {
                        let a = wanted.take(j as int).index_of(k);
                        assert(wanted.take(j + 1)[a] == k);
                    }
                    if k == wanted[j as int] {
                        assert(wanted.take(j + 1)[j as int] == k);
                    }
                }
            }
            if !targets.contains(key.as_str()) {
                let target = Target { key: key.clone(), name: key.clone() };
                proof {
                    assert forall|a: int| 0 <= a < r@.len() implies (#[trigger] r@[a])@.key != target@.key by {
                        assert(target_views(r@)[a] == r@[a]@);
                        assert(target_views(r@).contains(r@[a]@));
                        if !targets@.contains_key(r@[a]@.key) {
                            let b = wanted.take(j as int).index_of(r@[a]@.key);
                            assert(wanted[b] == r@[a]@.key);
                        }
                    }
                }
                let ghost tv = target@;
                self.insert_target(&mut r, target);
                proof {
                    assert forall|t: TargetV| #[trigger] target_views(r@).contains(t) <==> (
                    if targets@.contains_key(t.key) {
                        t.name == targets@[t.key]@
                    } else {
                        wanted.take(j + 1).contains(t.key) && t.name == t.key
                    }) by {
                        if t.key == tv.key && t.name == tv.name {
                            assert(t == tv);
                        }
                        assert(target_views(was).contains(t) <==> (if targets@.contains_key(t.key) {
                            t.name == targets@[t.key]@
                        } else {
                            wanted.take(j as int).contains(t.key) && t.name == t.key
                        }));
                    }
                }
            }
            j = j + 1;
        }
        proof {
            assert(wanted.take(m as int) =~= wanted);
        }
        r
    }
}

/// A request of a round: a marker, or a query without one.
pub struct RequestV {
    pub target: Seq<char>,
    pub name: Seq<char>,
    pub millis: Option<i64>,
}

/// A request on the wire.
pub open spec fn request_command(verb: Seq<char>, r: RequestV) -> CommandV {
    untagged(
        verb,
        match r.millis {
            Some(millis) => seq![r.name, marker_seq(millis)],
            None => seq![r.name],
        },
    )
}

/// Requests on the wire.
pub open spec fn request_commands(verb: Seq<char>, v: Seq<RequestV>) -> Seq<CommandV> {
    v.map_values(|r: RequestV| request_command(verb, r))
}

/// Requests as they are remembered.
pub open spec fn as_pending(v: Seq<RequestV>, now: u64) -> Seq<PendingMarkerV> {
    v.map_values(|r: RequestV| PendingMarkerV { target: r.target, timestamp: r.millis, sent_at: now })
}

/// The sent markers after requests.
pub open spec fn sent_after(m: Map<Seq<char>, SentMarker>, v: Seq<RequestV>, now: u64) -> Map<
    Seq<char>,
    SentMarker,
>
    decreases v.len(),
{
    if v.len() == 0 {
        m
    } else {
        let init = sent_after(m, v.drop_last(), now);
        match v.last().millis {
            Some(millis) => init.insert(v.last().target, SentMarker { millis, at: now }),
            None => init,
        }
    }
}

/// The queries after requests.
pub open spec fn queried_after(m: Map<Seq<char>, u64>, v: Seq<RequestV>, now: u64) -> Map<Seq<char>, u64>
    decreases v.len(),
{
    if v.len() == 0 {
        m
    } else {
        let init = queried_after(m, v.drop_last(), now);
        match v.last().millis {
            Some(_) => init,
            None => init.insert(v.last().target, now),
        }
    }
}

/// The smaller of two numbers.
pub open spec fn smaller(a: nat, b: nat) -> nat {
    if a < b {
        a
    } else {
        b
    }
}

impl ReadMarkers {
    /// What is to be requested for a target now: nothing where it was refused, where a failure is to
    /// be waited out, where it is known, or where it was requested a moment ago.
    pub open spec fn request(&self, t: TargetV, now: u64) -> Option<RequestV> {
        if self.rejected@.contains_key(t.key) || (self.retry_after@.contains_key(t.key) && now
            < self.retry_after@[t.key]) {
            None
        } else if self.desired@.contains_key(t.key) {
            let millis = self.desired@[t.key];
            let waits = self.sent@.contains_key(t.key) && !elapsed(
                now,
                self.sent@[t.key].at,
                if self.sent@[t.key].millis == millis {
                    SAME_MARKER_MS
                } else {
                    OTHER_MARKER_MS
                },
            );
            if waits {
                None
            } else {
                Some(RequestV { target: t.key, name: t.name, millis: Some(millis) })
            }
        } else if self.rejected_queries@.contains(t.key) || self.confirmed@.contains_key(t.key) || (
        self.queried@.contains_key(t.key) && !elapsed(now, self.queried@[t.key], QUERY_MS)) {
            None
        } else {
            Some(RequestV { target: t.key, name: t.name, millis: None })
        }
    }

    /// What is to be requested for some targets, in order.
    pub open spec fn requests(&self, v: Seq<TargetV>, now: u64) -> Seq<RequestV>
        decreases v.len(),
    {
        if v.len() == 0 {
            Seq::empty()
        } else {
            let init = self.requests(v.drop_last(), now);
            match self.request(v.last(), now) {
                Some(r) => init.push(r),
                None => init,
            }
        }
    }

    /// How many requests may go out: the budget and the room for unanswered ones limit them.
    pub open spec fn allowance(&self, budget: nat) -> nat {
        smaller(
            budget,
            if self.pending@.len() < PENDING_MAX {
                (PENDING_MAX - self.pending@.len()) as nat
            } else {
                0
            },
        )
    }

    /// The requests for some targets that are tried.
    pub open spec fn tried(&self, v: Seq<TargetV>, now: u64, budget: nat) -> Seq<RequestV> {
        let all = self.requests(v, now);
        all.take(smaller(all.len(), self.allowance(budget)) as int)
    }

    /// The requests for some targets that go through.
    pub open spec fn passed(&self, sender: IrcSender, v: Seq<TargetV>, now: u64, budget: nat) -> Seq<RequestV> {
        let t = self.tried(v, now, budget);
        t.take(sender.passing(t.len()) as int)
    }

    /// The requests of one round for some targets went out.
    pub open spec fn requested(
        &self,
        after: ReadMarkers,
        sender: IrcSender,
        sender_after: IrcSender,
        verb: Seq<char>,
        v: Seq<TargetV>,
        now: u64,
        budget: nat,
    ) -> bool {
        let done = self.passed(sender, v, now, budget);
        &&& sender.took(sender_after, request_commands(verb, self.tried(v, now, budget)))
        &&& pending_views(after.pending@) == pending_views(self.pending@) + as_pending(done, now)
        &&& after.sent@ == sent_after(self.sent@, done, now)
        &&& after.queried@ == queried_after(self.queried@, done, now)
        &&& after.scope == self.scope
        &&& after.confirmed == self.confirmed
        &&& after.desired == self.desired
        &&& after.rejected == self.rejected
        &&& after.rejected_queries == self.rejected_queries
        &&& after.failures == self.failures
        &&& after.retry_after == self.retry_after
    }
}

/// A request of a round.
#[derive(Debug)]
struct Request {
    target: String,
    name: String,
    millis: Option<i64>,
}

impl View for Request {
    type V = RequestV;

    closed spec fn view(&self) -> RequestV {
        RequestV { target: self.target@, name: self.name@, millis: self.millis }
    }
}

spec fn request_views(v: Seq<Request>) -> Seq<RequestV> {
    v.map_values(|r: Request| r@)
}

impl ReadMarkers {
    fn request_for(&self, t: &Target, now: u64) -> (r: Option<Request>)
        ensures
            match r {
                Some(q) => self.request(t@, now) == Some(q@),
                None => self.request(t@, now) is None,
            },
    {
        let key = t.key.as_str();
        if self.rejected.contains(key) {
            return None;
        }
        match self.retry_after.get(key) {
            Some(until) => {
                if now < *until {
                    return None;
                }
            },
            None => {},
        }
        match self.desired.get(key) {
            Some(millis) => {
                match self.sent.get(key) {
                    Some(sent) => {
                        let span: u64 = if sent.millis == *millis {
                            SAME_MARKER_MS
                        } else {
                            OTHER_MARKER_MS
                        };
                        if !has_elapsed(now, sent.at, span) {
                            return None;
                        }
                    },
                    None => {},
                }
                Some(Request { target: t.key.clone(), name: t.name.clone(), millis: Some(*millis) })
            },
            None => {
                if self.rejected_queries.contains(key) || self.confirmed.contains(key) {
                    return None;
                }
                match self.queried.get(key) {
                    Some(at) => {
                        if !has_elapsed(now, *at, QUERY_MS) {
                            return None;
                        }
                    },
                    None => {},
                }
                Some(Request { target: t.key.clone(), name: t.name.clone(), millis: None })
            },
        }
    }

    fn collect_requests(&self, targets: &Vec<Target>, now: u64) -> (r: Vec<Request>)
        ensures
            request_views(r@) == self.requests(target_views(targets@), now),
    {
        let ghost all = target_views(targets@);
        let mut r: Vec<Request> = Vec::new();
        let mut i: usize = 0;
        assert(all.take(0) =~= Seq::<TargetV>::empty());
        assert(request_views(r@) =~= Seq::<RequestV>::empty());
        while i < targets.len()
            invariant
                i <= targets@.len(),
                all == target_views(targets@),
                request_views(r@) == self.requests(all.take(i as int), now),
            decreases targets@.len() - i,
        {
            assert(all.take(i + 1).drop_last() =~= all.take(i as int));
            assert(all.take(i + 1).last() == targets@[i as int]@);
            let ghost was = request_views(r@);
            match self.request_for(&targets[i], now) {
                None => {},
                Some(q) => {
                    let ghost qv = q@;
                    r.push(q);
                    assert(request_views(r@) =~= was.push(qv));
                },
            }
            i = i + 1;
        }
        assert(all.take(all.len() as int) =~= all);
        r
    }

    /// Remembers a request that went out.
    fn remember(&mut self, q: &Request, now: u64)
        ensures
            pending_views(final(self).pending@) == pending_views(old(self).pending@).push(
                PendingMarkerV { target: q@.target, timestamp: q@.millis, sent_at: now },
            ),
            match q@.millis {
                Some(millis) => final(self).sent@ == old(self).sent@.insert(
                    q@.target,
                    SentMarker { millis, at: now },
                ) && final(self).queried == old(self).queried,
                None => final(self).queried@ == old(self).queried@.insert(q@.target, now)
                    && final(self).sent == old(self).sent,
            },
            *final(self) == (ReadMarkers {
                pending: final(self).pending,
                sent: final(self).sent,
                queried: final(self).queried,
                ..*old(self)
            }),
    {
        let ghost was = pending_views(self.pending@);
        let p = PendingMarker { target: q.target.clone(), timestamp: q.millis, sent_at: now };
        let ghost pv = p@;
        self.pending.push(p);
        assert(pending_views(self.pending@) =~= was.push(pv));
        match q.millis {
            Some(millis) => {
                self.sent.insert(q.target.clone(), SentMarker { millis, at: now });
            },
            None => {
                self.queried.insert(q.target.clone(), now);
            },
        }
    }

    /// Sends the requests of one round for some targets. Gives the rest of the budget, and whether it
    /// was used up before the last target.
    pub fn send_requests(
        &mut self,
        sender: &mut IrcSender,
        verb: &str,
        targets: &Vec<Target>,
        now: u64,
        budget: usize,
    ) -> (r: (usize, bool))
        ensures
            old(self).requested(
                *final(self),
                *old(sender),
                *final(sender),
                verb@,
                target_views(targets@),
                now,
                budget as nat,
            ),
            ({
                let v = target_views(targets@);
                &&& r.0 == budget - old(self).passed(*old(sender), v, now, budget as nat).len()
                &&& r.1 == (v.len() > 0 && old(self).passed(
                    *old(sender),
                    v.drop_last(),
                    now,
                    budget as nat,
                ).len() == budget)
            }),
    {
        let ghost before = *self;
        let ghost s0 = *sender;
        let ghost v = target_views(targets@);
        let queue = self.collect_requests(targets, now);
        let ghost all = self.requests(v, now);
        let n: usize = queue.len();
        assert(all.len() == n);
        let last_counts = if targets.len() > 0 {
            self.request_for(&targets[targets.len() - 1], now).is_some()
        } else {
            false
        };
        let room: usize = if self.pending.len() < PENDING_MAX {
            PENDING_MAX - self.pending.len()
        } else {
            0
        };
        let allowed: usize = if budget < room {
            budget
        } else {
            room
        };
        let limit: usize = if n < allowed {
            n
        } else {
            allowed
        };
        let ghost tried = self.tried(v, now, budget as nat);
        assert(tried =~= all.take(limit as int));
        let mut i: usize = 0;
        proof {
            lemma_took_nothing(s0);
            assert(request_commands(verb@, tried.take(0)) =~= Seq::<CommandV>::empty());
            assert(as_pending(tried.take(0), now) =~= Seq::<PendingMarkerV>::empty());
            assert(pending_views(self.pending@) + as_pending(tried.take(0), now) =~= pending_views(
                before.pending@,
            ));
            assert(s0.passing(0) == 0);
        }
        let mut open = true;
        while i < limit && open
            invariant
                i <= limit <= n,
                n == queue@.len(),
                before == *old(self),
                s0 == *old(sender),
                request_views(queue@) == all,
                tried == all.take(limit as int),
                tried.len() == limit,
                s0.took(*sender, request_commands(verb@, tried.take(i as int))),
                open ==> s0.passing(i as nat) == i,
                !open ==> i < limit && s0.passing((i + 1) as nat) == i && s0.took(
                    *sender,
                    request_commands(verb@, tried.take(i + 1)),
                ),
                pending_views(self.pending@) == pending_views(before.pending@) + as_pending(
                    tried.take(i as int),
                    now,
                ),
                self.sent@ == sent_after(before.sent@, tried.take(i as int), now),
                self.queried@ == queried_after(before.queried@, tried.take(i as int), now),
                *self == (ReadMarkers {
                    pending: self.pending,
                    sent: self.sent,
                    queried: self.queried,
                    ..before
                }),
            decreases limit - i + (if open { 1int } else { 0int }),
        {
            let q = &queue[i];
            let ghost qv = q@;
            proof {
                assert(request_views(queue@)[i as int] == qv);
                assert(tried[i as int] == qv);
                assert(tried.take(i + 1) =~= tried.take(i as int).push(qv));
                assert(tried.take(i + 1).drop_last() =~= tried.take(i as int));
            }
            let command = match q.millis {
                Some(millis) => {
                    let stamp = marker_text(millis);
                    command2(verb, q.name.as_str(), stamp.as_str())
                },
                None => command1(verb, q.name.as_str()),
            };
            let ghost c = command@;
            assert(c == request_command(verb@, qv));
            let ghost s1 = *sender;
            let ok = sender.send(command).is_ok();
            proof {
                lemma_took_one(s1, *sender, c);
                lemma_took_twice(
                    s0,
                    s1,
                    *sender,
                    request_commands(verb@, tried.take(i as int)),
                    seq![c],
                );
                assert(request_commands(verb@, tried.take(i as int)) + seq![c] =~= request_commands(
                    verb@,
                    tried.take(i + 1),
                ));
            }
            if ok {
                self.remember(q, now);
                proof {
                    assert(as_pending(tried.take(i + 1), now) =~= as_pending(tried.take(i as int), now).push(
                        PendingMarkerV { target: qv.target, timestamp: qv.millis, sent_at: now },
                    ));
                    assert(pending_views(self.pending@) =~= pending_views(before.pending@) + as_pending(
                        tried.take(i + 1),
                        now,
                    ));
                }
                i = i + 1;
            } else {
                open = false;
            }
        }
        proof {
            let t = tried.len();
            if open {
                assert(tried.take(limit as int) =~= tried);
                assert(s0.passing(t) == i);
            } else {
                assert(s0.passing(t) == i);
                let x = request_commands(verb@, tried.take(i + 1));
                let whole = request_commands(verb@, tried);
                let p = s0.passing(x.len());
                assert(x.take(p as int) =~= whole.take(p as int));
                assert(s0.took(*sender, whole));
            }
            assert(before.passed(s0, v, now, budget as nat) =~= tried.take(i as int));
        }
        let counted: usize = if last_counts && n > 0 {
            n - 1
        } else {
            n
        };
        let earlier_sends: usize = if i < counted {
            i
        } else {
            counted
        };
        proof {
            if v.len() > 0 {
                let init = before.requests(v.drop_last(), now);
                assert(v.last() == targets@[targets@.len() - 1]@);
                assert(init.len() == counted);
                let ti = before.tried(v.drop_last(), now, budget as nat);
                assert(ti.len() == smaller(counted as nat, allowed as nat));
                assert(s0.passing(ti.len()) == earlier_sends);
            }
        }
        (budget - i, targets.len() > 0 && earlier_sends == budget)
    }
}

/// A round sends no more requests than its budget, and leaves no more unanswered than the limit,
/// where there were none more before.
pub proof fn round_is_bounded(
    markers: ReadMarkers,
    after: ReadMarkers,
    sender: IrcSender,
    sender_after: IrcSender,
    verb: Seq<char>,
    v: Seq<TargetV>,
    now: u64,
    budget: nat,
)
    requires
        markers.requested(after, sender, sender_after, verb, v, now, budget),
        markers.pending@.len() <= PENDING_MAX,
    ensures
        markers.passed(sender, v, now, budget).len() <= budget,
        after.pending@.len() <= PENDING_MAX,
{
    let done = markers.passed(sender, v, now, budget);
    assert(pending_views(after.pending@).len() == after.pending@.len());
    assert(pending_views(markers.pending@).len() == markers.pending@.len());
    assert(as_pending(done, now).len() == done.len());
}

/// The markers of a connection's network.
pub open spec fn begun(map: Map<Seq<char>, ReadMarkers>, id: Seq<char>, scope: Seq<char>, p: ReadMarkers) -> bool {
    if map.contains_key(id) {
        map[id].prepared(p, scope)
    } else {
        p.blank(scope)
    }
}

/// The markers that a connection works with: those of its network, without too old requests.
pub open spec fn ready(
    map: Map<Seq<char>, ReadMarkers>,
    id: Seq<char>,
    scope: Seq<char>,
    now: u64,
    m: ReadMarkers,
) -> bool {
    exists|p: ReadMarkers|
        {
            &&& #[trigger] begun(map, id, scope, p)
            &&& m == (ReadMarkers { pending: m.pending, ..p })
            &&& pending_views(m.pending@) == fresh_requests(pending_views(p.pending@), now)
        }
}

/// The verb for read markers that a connection understands.
pub open spec fn marker_verb(c: Connection) -> Option<Seq<char>> {
    if c.enabled_caps@.contains("draft/read-marker"@) {
        Some("MARKREAD"@)
    } else if c.enabled_caps@.contains("soju.im/read"@) {
        Some("READ"@)
    } else {
        None
    }
}

/// A connection keeps read markers: it has a bouncer that is not its control connection.
pub open spec fn keeps_markers(c: Connection) -> bool {
    c.owns_history() && !c.origin_config.bouncer_control
}

/// A connection takes part in a round.
pub open spec fn takes_part(state: AppState, handles: Map<Seq<char>, IrcHandle>, id: Seq<char>) -> bool {
    &&& state.connections@.contains_key(id)
    &&& keeps_markers(state.connections@[id])
    &&& state.connections@[id].status == ConnectionStatus::Connected
    &&& marker_verb(state.connections@[id]) is Some
    &&& handles.contains_key(id)
}

/// A buffer is a conversation of a connection.
pub open spec fn conversation(b: Buffer, conn_id: Seq<char>) -> bool {
    b.connection_id@ == conn_id && (b.buffer_type == BufferType::Channel || b.buffer_type
        == BufferType::Query)
}

/// The conversations of a connection among some buffers, by lower-case name; a later one replaces
/// an earlier one of the same name.
pub open spec fn named_targets(state: AppState, conn_id: Seq<char>, ids: Seq<Seq<char>>) -> Map<
    Seq<char>,
    Seq<char>,
>
    decreases ids.len(),
{
    if ids.len() == 0 {
        Map::empty()
    } else {
        let init = named_targets(state, conn_id, ids.drop_last());
        let b = state.buffers@[ids.last()];
        if conversation(b, conn_id) {
            init.insert(lower_seq(b.name@), b.name@)
        } else {
            init
        }
    }
}

/// The texts of a map of strings.
pub open spec fn text_map(m: Map<Seq<char>, String>) -> Map<Seq<char>, Seq<char>> {
    m.map_values(|s: String| s@)
}

/// The conversations of a connection, by lower-case name.
fn conversations(state: &AppState, conn_id: &str) -> (r: StrMap<String>)
    ensures
        text_map(r@) == named_targets(*state, conn_id@, state.buffers.keys()),
{
    let mut r: StrMap<String> = StrMap::new();
    let n: usize = state.buffers.len();
    let ghost keys = state.buffers.keys();
    let mut i: usize = 0;
    assert(keys.take(0) =~= Seq::<Seq<char>>::empty());
    assert(text_map(r@) =~= Map::<Seq<char>, Seq<char>>::empty());
    while i < n
        invariant
            n == keys.len(),
            keys == state.buffers.keys(),
            i <= n,
            text_map(r@) == named_targets(*state, conn_id@, keys.take(i as int)),
        decreases n - i,
    {
        let b = state.buffers.value_at(i);
        assert(keys.take(i + 1).drop_last() =~= keys.take(i as int));
        assert(keys.take(i + 1).last() == keys[i as int]);
        let ghost was = r@;
        if same(b.connection_id.as_str(), conn_id) && (b.buffer_type == BufferType::Channel
            || b.buffer_type == BufferType::Query) {
            let key = lower(b.name.as_str());
            let ghost k = key@;
            r.insert(key, b.name.clone());
            assert(text_map(r@) =~= text_map(was).insert(k, b.name@));
        }
        i = i + 1;
    }
    assert(keys.take(n as int) =~= keys);
    r
}

/// The conversations of a connection that a round looks at stand in order of urgency.
pub open spec fn round_targets(m: ReadMarkers, state: AppState, id: Seq<char>, v: Seq<TargetV>) -> bool {
    let names = named_targets(state, id, state.buffers.keys());
    &&& m.prioritized(v)
    &&& forall|t: TargetV| #[trigger]
        v.contains(t) <==> (if names.contains_key(t.key) {
            t.name == names[t.key]
        } else {
            m.desired@.contains_key(t.key) && t.name == t.key
        })
}

/// One connection's part of a round, with `budget` requests left before it and `left` after it;
/// `stop` says that the round is over.
pub open spec fn one_round(
    m0: Map<Seq<char>, ReadMarkers>,
    m1: Map<Seq<char>, ReadMarkers>,
    h0: Map<Seq<char>, IrcHandle>,
    h1: Map<Seq<char>, IrcHandle>,
    state: AppState,
    id: Seq<char>,
    now: u64,
    budget: nat,
    stopped: bool,
    left: nat,
    stop: bool,
) -> bool {
    if stopped || !takes_part(state, h0, id) {
        m1 == m0 && h1 == h0 && left == budget && stop == stopped
    } else {
        let c = state.connections@[id];
        let sender = h0[id].sender;
        exists|m: ReadMarkers, v: Seq<TargetV>|
            {
                &&& #[trigger] ready(m0, id, c.key(), now, m)
                &&& #[trigger] round_targets(m, state, id, v)
                &&& m1 == m0.insert(id, m1[id])
                &&& h1 == h0.insert(id, h1[id])
                &&& h1[id] == (IrcHandle { sender: h1[id].sender, ..h0[id] })
                &&& m.requested(
                    m1[id],
                    sender,
                    h1[id].sender,
                    marker_verb(c)->0,
                    v,
                    now,
                    budget,
                )
                &&& left == budget - m.passed(sender, v, now, budget).len()
                &&& stop == (v.len() > 0 && m.passed(sender, v.drop_last(), now, budget).len() == budget)
            }
    }
}

/// A round over some connections, one after the other.
pub open spec fn round(
    m0: Map<Seq<char>, ReadMarkers>,
    m1: Map<Seq<char>, ReadMarkers>,
    h0: Map<Seq<char>, IrcHandle>,
    h1: Map<Seq<char>, IrcHandle>,
    state: AppState,
    ids: Seq<Seq<char>>,
    now: u64,
    left: nat,
    stop: bool,
) -> bool
    decreases ids.len(),
{
    if ids.len() == 0 {
        m1 == m0 && h1 == h0 && left == ROUND_BUDGET && !stop
    } else {
        exists|
            mm: Map<Seq<char>, ReadMarkers>,
            mh: Map<Seq<char>, IrcHandle>,
            budget: nat,
            stopped: bool,
        |
            {
                &&& round(m0, mm, h0, mh, state, ids.drop_last(), now, budget, stopped)
                &&& #[trigger] one_round(
                    mm,
                    m1,
                    mh,
                    h1,
                    state,
                    ids.last(),
                    now,
                    budget,
                    stopped,
                    left,
                    stop,
                )
            }
    }
}

/// The markers of the connections that are there.
pub open spec fn kept_markers(
    before: Map<Seq<char>, ReadMarkers>,
    after: Map<Seq<char>, ReadMarkers>,
    state: AppState,
) -> bool {
    &&& forall|k: Seq<char>| #[trigger]
        after.contains_key(k) <==> before.contains_key(k) && state.connections@.contains_key(k)
    &&& forall|k: Seq<char>| #[trigger] after.contains_key(k) ==> after[k] == before[k]
}

/// Runs one connection's part of a round.
fn run_one(
    map: &mut StrMap<ReadMarkers>,
    handles: &mut StrMap<IrcHandle>,
    state: &AppState,
    id: &str,
    now: u64,
    budget: usize,
) -> (r: (usize, bool))
    ensures
        final(handles).keys() == old(handles).keys(),
        one_round(
            old(map)@,
            final(map)@,
            old(handles)@,
            final(handles)@,
            *state,
            id@,
            now,
            budget as nat,
            false,
            r.0 as nat,
            r.1,
        ),
        r.0 <= budget,
{
    let ghost m0 = map@;
    let ghost h0 = handles@;
    let (verb, scope) = match state.connections.get(id) {
        None => {
            return (budget, false);
        },
        Some(c) => {
            if !c.server_owns_history() || c.origin_config.bouncer_control || c.status
                != ConnectionStatus::Connected {
                return (budget, false);
            }
            let verb = if c.enabled_caps.contains("draft/read-marker") {
                "MARKREAD"
            } else if c.enabled_caps.contains("soju.im/read") {
                "READ"
            } else {
                return (budget, false);
            };
            (verb, c.network_key().clone())
        },
    };
    if !handles.contains(id) {
        return (budget, false);
    }
    let mut markers = match map.remove(id) {
        Some(m) => m,
        None => ReadMarkers::new(scope.as_str()),
    };
    let ghost start = markers;
    markers.prepare_scope(scope.as_str());
    let ghost p = markers;
    assert(begun(m0, id@, scope@, p));
    markers.expire_requests(now);
    let ghost m = markers;
    assert(ready(m0, id@, scope@, now, m));
    let names = conversations(state, id);
    let ghost nm = names@;
    let targets = markers.prioritized_targets(names);
    let ghost v = target_views(targets@);
    proof {
        let want = named_targets(*state, id@, state.buffers.keys());
        assert(text_map(nm) == want);
        assert forall|t: TargetV| #[trigger] v.contains(t) <==> (if want.contains_key(t.key) {
            t.name == want[t.key]
        } else {
            m.desired@.contains_key(t.key) && t.name == t.key
        }) by {
            assert(nm.contains_key(t.key) <==> text_map(nm).contains_key(t.key));
            assert(v.contains(t) <==> m.all_targets(nm, t));
        }
        assert(round_targets(m, *state, id@, v));
    }
    let r = match handles.get_mut(id) {
        None => (budget, false),
        Some(handle) => markers.send_requests(&mut handle.sender, verb, &targets, now, budget),
    };
    map.insert(id.to_string(), markers);
    assert(map@ =~= m0.insert(id@, map@[id@]));
    assert(handles@ =~= h0.insert(id@, handles@[id@]));
    r
}

/// A round over all connections: markers of connections that are gone are forgotten, and a few requests
/// are sent.
pub open spec fn markers_ticked(
    m0: Map<Seq<char>, ReadMarkers>,
    m1: Map<Seq<char>, ReadMarkers>,
    h0: Map<Seq<char>, IrcHandle>,
    h1: Map<Seq<char>, IrcHandle>,
    state: AppState,
    now: u64,
) -> bool {
    exists|middle: Map<Seq<char>, ReadMarkers>, left: nat, stop: bool|
        {
            &&& #[trigger] kept_markers(m0, middle, state)
            &&& #[trigger] round(
                middle,
                m1,
                h0,
                h1,
                state,
                state.connections.keys(),
                now,
                left,
                stop,
            )
        }
}

/// Asks bouncers about read markers and tells them of new ones: a few requests per round, the most
/// urgent conversations first. Markers of connections that are gone are forgotten.
pub fn tick_read_markers(
    map: &mut StrMap<ReadMarkers>,
    handles: &mut StrMap<IrcHandle>,
    state: &AppState,
    now: u64,
)
    ensures
        final(handles).keys() == old(handles).keys(),
        markers_ticked(old(map)@, final(map)@, old(handles)@, final(handles)@, *state, now),
{
    let ghost m0 = map@;
    let ghost h0 = handles@;
    let mut keep: Vec<bool> = Vec::new();
    let k: usize = map.len();
    let ghost old_keys = map.keys();
    let mut a: usize = 0;
    while a < k
        invariant
            k == map.keys().len(),
            a <= k,
            keep@.len() == a,
            map@ == m0,
            map.keys() == old_keys,
            map.ordered(),
            forall|j: int|
                0 <= j < a ==> (#[trigger] keep@[j] <==> state.connections@.contains_key(old_keys[j])),
        decreases k - a,
    {
        keep.push(state.connections.contains(map.key_at(a).as_str()));
        a = a + 1;
    }
    assert(map.ordered());
    map.retain(&keep);
    let ghost middle = map@;
    proof {
        assert forall|x: Seq<char>| #[trigger] middle.contains_key(x) <==> m0.contains_key(x)
            && state.connections@.contains_key(x) by {
            if m0.contains_key(x) {
                let j = old_keys.index_of(x);
                assert(old_keys[j] == x);
                assert(keep@[j] <==> state.connections@.contains_key(old_keys[j]));
            }
        }
        assert(kept_markers(m0, middle, *state));
    }
    let n: usize = state.connections.len();
    let ghost ids = state.connections.keys();
    let mut budget: usize = ROUND_BUDGET;
    let mut stopped = false;
    let mut i: usize = 0;
    assert(ids.take(0) =~= Seq::<Seq<char>>::empty());
    while i < n
        invariant
            n == ids.len(),
            ids == state.connections.keys(),
            handles.keys() == old(handles).keys(),
            i <= n,
            budget <= ROUND_BUDGET,
            round(
                middle,
                map@,
                h0,
                handles@,
                *state,
                ids.take(i as int),
                now,
                budget as nat,
                stopped,
            ),
        decreases n - i,
    {
        let id = state.connections.key_at(i);
        let ghost mm = map@;
        let ghost mh = handles@;
        let ghost b0 = budget as nat;
        let ghost s0 = stopped;
        if !stopped {
            let (left, stop) = run_one(map, handles, state, id.as_str(), now, budget);
            budget = left;
            stopped = stop;
        }
        proof {
            assert(ids.take(i + 1).drop_last() =~= ids.take(i as int));
            assert(ids.take(i + 1).last() == id@);
            assert(one_round(
                mm,
                map@,
                mh,
                handles@,
                *state,
                ids.take(i + 1).last(),
                now,
                b0,
                s0,
                budget as nat,
                stopped,
            ));
        }
        i = i + 1;
    }
    assert(ids.take(n as int) =~= ids);
}

impl ReadMarkers {
    /// The bouncer refused a marker of a target, at least as far as one that is to be set.
    pub open spec fn refused(&self, target: Seq<char>, millis: i64) -> bool {
        self.rejected@.contains_key(target) && self.rejected@[target] >= millis
    }

    /// What a new boundary of reading does: it becomes what is still to be confirmed, unless it is
    /// confirmed; a refusal further back is forgotten.
    pub open spec fn marked(&self, after: ReadMarkers, target: Seq<char>, millis: i64) -> bool {
        if self.refused(target, millis) {
            after == *self
        } else {
            &&& after.scope == self.scope
            &&& after.confirmed == self.confirmed
            &&& after.sent == self.sent
            &&& after.queried == self.queried
            &&& after.pending == self.pending
            &&& after.rejected@ == self.rejected@.remove(target)
            &&& after.rejected_queries@ == self.rejected_queries@.remove(target)
            &&& if self.rejected_queries@.contains(target) {
                after.failures@ == self.failures@.remove(target) && after.retry_after@
                    == self.retry_after@.remove(target)
            } else {
                after.failures == self.failures && after.retry_after == self.retry_after
            }
            &&& if self.confirmed@.contains_key(target) && at_least(
                self.confirmed@[target],
                Some(millis),
            ) {
                after.desired == self.desired
            } else {
                after.desired@ == self.desired@.insert(
                    target,
                    if self.desired@.contains_key(target) && self.desired@[target] > millis {
                        self.desired@[target]
                    } else {
                        millis
                    },
                )
            }
        }
    }

    /// Takes a new boundary of reading; tells whether it counts.
    pub fn mark(&mut self, target: &str, millis: i64) -> (r: bool)
        ensures
            r == !old(self).refused(target@, millis),
            old(self).marked(*final(self), target@, millis),
    {
        match self.rejected.get(target) {
            Some(rejected) => {
                if *rejected >= millis {
                    return false;
                }
            },
            None => {},
        }
        self.rejected.remove(target);
        if self.rejected_queries.remove(target) {
            self.failures.remove(target);
            self.retry_after.remove(target);
        }
        let known = match self.confirmed.get(target) {
            Some(Some(time)) => *time >= millis,
            _ => false,
        };
        if !known {
            let latest: i64 = match self.desired.get(target) {
                Some(desired) => if *desired > millis {
                    *desired
                } else {
                    millis
                },
                None => millis,
            };
            self.desired.insert(target.to_string(), latest);
        }
        true
    }
}

/// A boundary of reading: a conversation's buffer and the time of the last message read in it.
#[derive(Debug)]
pub struct Boundary {
    pub origin: String,
    pub millis: i64,
}

/// Boundaries are taken one after the other; `used` lists the positions of those that count.
pub open spec fn boundaries_marked(
    before: ReadMarkers,
    after: ReadMarkers,
    boundaries: Seq<Boundary>,
    used: Seq<usize>,
) -> bool
    decreases boundaries.len(),
{
    if boundaries.len() == 0 {
        after == before && used.len() == 0
    } else {
        let b = boundaries.last();
        match cut_first(b.origin@, '/') {
            None => boundaries_marked(before, after, boundaries.drop_last(), used),
            Some(p) => exists|middle: ReadMarkers|
                {
                    &&& #[trigger] middle.marked(after, lower_seq(p.1), b.millis)
                    &&& if middle.refused(lower_seq(p.1), b.millis) {
                        boundaries_marked(before, middle, boundaries.drop_last(), used)
                    } else {
                        &&& used.len() > 0
                        &&& used.last() == boundaries.len() - 1
                        &&& boundaries_marked(before, middle, boundaries.drop_last(), used.drop_last())
                    }
                },
        }
    }
}

/// Takes boundaries of reading, one after the other. Gives the positions of those that count.
fn take_boundaries(markers: &mut ReadMarkers, boundaries: &Vec<Boundary>) -> (r: Vec<usize>)
    ensures
        boundaries_marked(*old(markers), *final(markers), boundaries@, r@),
{
    let ghost before = *markers;
    let mut r: Vec<usize> = Vec::new();
    let mut i: usize = 0;
    assert(boundaries@.take(0) =~= Seq::<Boundary>::empty());
    while i < boundaries.len()
        invariant
            i <= boundaries@.len(),
            boundaries_marked(before, *markers, boundaries@.take(i as int), r@),
        decreases boundaries@.len() - i,
    {
        proof {
            assert(boundaries@.take(i + 1).drop_last() =~= boundaries@.take(i as int));
            assert(boundaries@.take(i + 1).last() == boundaries@[i as int]);
        }
        let ghost middle = *markers;
        let ghost used = r@;
        match split_once(boundaries[i].origin.as_str(), '/') {
            None => {},
            Some((_, target)) => {
                let target = lower(target.as_str());
                if markers.mark(target.as_str(), boundaries[i].millis) {
                    r.push(i);
                    assert(r@.drop_last() =~= used);
                }
                proof {
                    let b = boundaries@.take(i + 1).last();
                    assert(target@ == lower_seq((cut_first(b.origin@, '/')->0).1));
                    assert(middle.marked(
                        *markers,
                        lower_seq((cut_first(b.origin@, '/')->0).1),
                        b.millis,
                    ));
                }
            },
        }
        i = i + 1;
    }
    assert(boundaries@.take(boundaries@.len() as int) =~= boundaries@);
    r
}

/// Some boundary names a conversation of a connection.
pub open spec fn some_placed(boundaries: Seq<Boundary>) -> bool {
    exists|i: int|
        0 <= i < boundaries.len() && cut_first((#[trigger] boundaries[i]).origin@, '/') is Some
}

/// What has become visible in a buffer is read: its boundaries are taken under the connection's network,
/// and a round follows where there are any. Nothing happens in a buffer that keeps no read markers, is
/// gone, or does not hold the message.
pub open spec fn visible_read(
    m0: Map<Seq<char>, ReadMarkers>,
    m1: Map<Seq<char>, ReadMarkers>,
    h0: Map<Seq<char>, IrcHandle>,
    h1: Map<Seq<char>, IrcHandle>,
    state: AppState,
    buffer_id: Seq<char>,
    kept: bool,
    boundaries: Option<Seq<Boundary>>,
    now: u64,
    r: Option<Seq<usize>>,
) -> bool {
    if !kept || !state.buffers@.contains_key(buffer_id) || boundaries is None {
        r is None && m1 == m0 && h1 == h0
    } else if boundaries->0.len() == 0 {
        r == Some(Seq::<usize>::empty()) && m1 == m0 && h1 == h0
    } else {
        let id = state.buffers@[buffer_id].connection_id@;
        let key = state.connections@[id].key();
        exists|mm: Map<Seq<char>, ReadMarkers>|
            {
                &&& r is Some
                &&& if some_placed(boundaries->0) {
                    &&& mm == m0.insert(id, mm[id])
                    &&& exists|p: ReadMarkers|
                        #[trigger] begun(m0, id, key, p) && boundaries_marked(p, mm[id], boundaries->0, r->0)
                } else {
                    mm == m0 && r->0.len() == 0
                }
                &&& #[trigger] markers_ticked(mm, m1, h0, h1, state, now)
            }
    }
}

/// Whether some boundary names a conversation of a connection.
fn is_some_placed(boundaries: &Vec<Boundary>) -> (r: bool)
    ensures
        r == some_placed(boundaries@),
{
    let mut i: usize = 0;
    while i < boundaries.len()
        invariant
            i <= boundaries@.len(),
            forall|j: int| 0 <= j < i ==> cut_first((#[trigger] boundaries@[j]).origin@, '/') is None,
        decreases boundaries@.len() - i,
    {
        if split_once(boundaries[i].origin.as_str(), '/').is_some() {
            return true;
        }
        i = i + 1;
    }
    false
}

/// An optional list of boundaries as a sequence.
pub open spec fn opt_boundaries(o: Option<Vec<Boundary>>) -> Option<Seq<Boundary>> {
    match o {
        Some(v) => Some(v@),
        None => None,
    }
}

/// An optional list of positions as a sequence.
pub open spec fn opt_used(o: Option<Vec<usize>>) -> Option<Seq<usize>> {
    match o {
        Some(v) => Some(v@),
        None => None,
    }
}

/// Marks what has become visible in a buffer as read. `kept` tells whether read markers are kept for it,
/// `boundaries` how far that means that conversations are read, where the buffer holds the message. Gives
/// the positions of the boundaries that count: their buffers are read up to there, and the rows of this
/// one up to the message are seen.
pub fn mark_visible_message_read(
    map: &mut StrMap<ReadMarkers>,
    handles: &mut StrMap<IrcHandle>,
    state: &AppState,
    buffer_id: &str,
    kept: bool,
    boundaries: &Option<Vec<Boundary>>,
    now: u64,
) -> (r: Option<Vec<usize>>)
    requires
        kept && state.buffers@.contains_key(buffer_id@) && boundaries is Some
            ==> state.connections@.contains_key(state.buffers@[buffer_id@].connection_id@),
    ensures
        final(handles).keys() == old(handles).keys(),
        visible_read(
            old(map)@,
            final(map)@,
            old(handles)@,
            final(handles)@,
            *state,
            buffer_id@,
            kept,
            opt_boundaries(*boundaries),
            now,
            opt_used(r),
        ),
{
    if !kept {
        return None;
    }
    let (id, list) = match (state.buffers.get(buffer_id), boundaries) {
        (Some(b), Some(list)) => (b.connection_id.clone(), list),
        _ => {
            return None;
        },
    };
    let used: Vec<usize> = Vec::new();
    if list.len() == 0 {
        assert(used@ =~= Seq::<usize>::empty());
        return Some(used);
    }
    let ghost m0 = map@;
    let ghost key = state.connections@[id@].key();
    let mut used = used;
    if is_some_placed(list) {
        let scope = match state.connections.get(id.as_str()) {
            Some(c) => c.network_key().clone(),
            None => String::new(),
        };
        let mut markers = match map.remove(id.as_str()) {
            Some(m) => m,
            None => ReadMarkers::new(scope.as_str()),
        };
        markers.prepare_scope(scope.as_str());
        let ghost p = markers;
        assert(begun(m0, id@, key, p));
        used = take_boundaries(&mut markers, list);
        map.insert(id.clone(), markers);
        assert(map@ =~= m0.insert(id@, map@[id@]));
    }
    let ghost mm = map@;
    tick_read_markers(map, handles, state, now);
    assert(markers_ticked(mm, map@, old(handles)@, handles@, *state, now));
    Some(used)
}

/// What the terminal's view means for reading.
#[derive(Debug)]
pub enum TerminalRead {
    /// Nothing.
    Nothing,
    /// The buffer's activity is seen.
    ClearActivity(String),
    /// The buffer is read up to a message.
    Mark(String, u64),
}

/// The terminal shows the end of a buffer to someone.
pub open spec fn reading(app: crate::app::App, terminal: bool) -> bool {
    &&& terminal
    &&& app.terminal_focused
    &&& app.scroll_offset == 0
    &&& !app.log_browser_mode
    &&& !app.overlays.wizard
    &&& !app.overlays.picker
    &&& !app.overlays.preview
}

/// Decides what the terminal's view means for reading. `terminal` says that a terminal is there,
/// `server_history` that the server keeps the history of the active buffer, `markers`
/// that read markers are kept for it.
pub fn mark_terminal_read(app: &crate::app::App, terminal: bool, server_history: bool, markers: bool) -> (r:
    TerminalRead)
    ensures
        match (app.state.active_buffer_id, reading(*app, terminal)) {
            (Some(id), true) => if server_history && !markers {
                if app.state.buffers@.contains_key(id@) && (app.state.buffers@[id@].unread_count != 0
                    || app.state.buffers@[id@].activity != ActivityLevel::Quiet) {
                    r matches TerminalRead::ClearActivity(b) && b@ == id@
                } else {
                    r is Nothing
                }
            } else if app.state.buffers@.contains_key(id@) && app.state.buffers@[id@].messages@.len() > 0 {
                r matches TerminalRead::Mark(b, m) && b@ == id@ && m
                    == app.state.buffers@[id@].messages@.last().id
            } else {
                r is Nothing
            },
            _ => r is Nothing,
        },
{
    if !terminal || !app.terminal_focused || app.scroll_offset != 0 || app.log_browser_mode || app.overlays.wizard
        || app.overlays.picker || app.overlays.preview {
        return TerminalRead::Nothing;
    }
    let id = match &app.state.active_buffer_id {
        None => {
            return TerminalRead::Nothing;
        },
        Some(id) => id,
    };
    let buffer = match app.state.buffers.get(id.as_str()) {
        None => {
            return TerminalRead::Nothing;
        },
        Some(b) => b,
    };
    if server_history && !markers {
        if buffer.unread_count != 0 || buffer.activity != ActivityLevel::Quiet {
            return TerminalRead::ClearActivity(id.clone());
        }
        return TerminalRead::Nothing;
    }
    let n: usize = buffer.messages.len();
    if n == 0 {
        TerminalRead::Nothing
    } else {
        TerminalRead::Mark(id.clone(), buffer.messages[n - 1].id)
    }
}

/// A failure's context names a request: by its target, or by its timestamp; no context names any.
pub open spec fn names_request(context: Option<Seq<char>>, p: PendingMarkerV) -> bool {
    match context {
        None => true,
        Some(c) => lower_seq(c) == lower_seq(p.target) || (p.timestamp matches Some(millis) && c
            == marker_seq(millis)),
    }
}

/// The first request that a failure names.
pub open spec fn first_named(v: Seq<PendingMarkerV>, context: Option<Seq<char>>, i: int) -> bool {
    &&& 0 <= i < v.len()
    &&& names_request(context, v[i])
    &&& forall|j: int| 0 <= j < i ==> !names_request(context, #[trigger] v[j])
}

/// The number of failures after one more.
pub open spec fn one_more(n: Option<u8>) -> u8 {
    match n {
        None => 1,
        Some(n) => if n == u8::MAX {
            n
        } else {
            (n + 1) as u8
        },
    }
}

/// How long to wait after failures, in milliseconds.
pub open spec fn backoff(failures: u8) -> u64 {
    if failures == 1 {
        10_000
    } else {
        20_000
    }
}

/// A time a while later.
pub open spec fn later(now: u64, span: u64) -> u64 {
    if now > u64::MAX - span {
        u64::MAX
    } else {
        (now + span) as u64
    }
}

impl ReadMarkers {
    /// How many failures a target has after one more.
    pub open spec fn failures_after(&self, target: Seq<char>) -> u8 {
        one_more(
            if self.failures@.contains_key(target) {
                Some(self.failures@[target])
            } else {
                None
            },
        )
    }

    /// What the failure of the request at a position does: an internal error is waited out a few
    /// times; anything else, or too many of them, is a refusal.
    pub open spec fn failed(&self, after: ReadMarkers, i: int, internal: bool, now: u64) -> bool {
        let p = self.pending@[i]@;
        let count = self.failures_after(p.target);
        &&& after.scope == self.scope
        &&& after.confirmed == self.confirmed
        &&& after.pending@ == self.pending@.remove(i)
        &&& after.failures@ == self.failures@.insert(p.target, count)
        &&& if internal && count < 3 {
            &&& after.retry_after@ == self.retry_after@.insert(p.target, later(now, backoff(count)))
            &&& after.desired == self.desired
            &&& after.sent == self.sent
            &&& after.queried == self.queried
            &&& after.rejected == self.rejected
            &&& after.rejected_queries == self.rejected_queries
        } else {
            &&& after.retry_after@ == self.retry_after@.remove(p.target)
            &&& match p.timestamp {
                Some(rejected) => {
                    &&& after.queried == self.queried
                    &&& after.rejected_queries == self.rejected_queries
                    &&& after.sent@ == (if self.sent@.contains_key(p.target) && self.sent@[p.target].millis
                        == rejected {
                        self.sent@.remove(p.target)
                    } else {
                        self.sent@
                    })
                    &&& if self.desired@.contains_key(p.target) && self.desired@[p.target] > rejected {
                        after.desired == self.desired && after.rejected == self.rejected
                    } else {
                        after.desired@ == self.desired@.remove(p.target) && after.rejected@
                            == self.rejected@.insert(p.target, rejected)
                    }
                },
                None => {
                    &&& after.desired == self.desired
                    &&& after.sent == self.sent
                    &&& after.rejected == self.rejected
                    &&& after.rejected_queries@ == self.rejected_queries@.insert(p.target)
                    &&& after.queried@ == self.queried@.remove(p.target)
                },
            }
        }
    }

    /// The first request that a failure names.
    fn find_named(&self, context: Option<&str>) -> (r: Option<usize>)
        ensures
            ({
                let c = match context {
                    Some(c) => Some(c@),
                    None => None,
                };
                match r {
                    Some(i) => first_named(pending_views(self.pending@), c, i as int),
                    None => forall|j: int|
                        0 <= j < self.pending@.len() ==> !names_request(
                            c,
                            #[trigger] pending_views(self.pending@)[j],
                        ),
                }
            }),
    {
        let ghost c = match context {
            Some(c) => Some(c@),
            None => None,
        };
        let ghost v = pending_views(self.pending@);
        let mut i: usize = 0;
        while i < self.pending.len()
            invariant
                i <= self.pending@.len(),
                v == pending_views(self.pending@),
                c == (match context {
                    Some(c) => Some(c@),
                    None => None,
                }),
                forall|j: int| 0 <= j < i ==> !names_request(c, #[trigger] v[j]),
            decreases self.pending@.len() - i,
        {
            let p = &self.pending[i];
            assert(v[i as int] == p@);
            let named = match context {
                None => true,
                Some(c) => {
                    if same_ignoring_case(c, p.target.as_str()) {
                        true
                    } else {
                        match p.timestamp {
                            None => false,
                            Some(millis) => {
                                let stamp = marker_text(millis);
                                same(c, stamp.as_str())
                            },
                        }
                    }
                },
            };
            if named {
                return Some(i);
            }
            i = i + 1;
        }
        None
    }

    /// Takes the failure of the request at a position.
    fn fail(&mut self, i: usize, internal: bool, now: u64)
        requires
            i < old(self).pending@.len(),
        ensures
            old(self).failed(*final(self), i as int, internal, now),
    {
        let request = self.pending.remove(i);
        let target = request.target.as_str();
        let count: u8 = match self.failures.get(target) {
            None => 1,
            Some(n) => if *n == u8::MAX {
                *n
            } else {
                *n + 1
            },
        };
        self.failures.insert(request.target.clone(), count);
        if internal && count < 3 {
            let span: u64 = if count == 1 {
                10_000
            } else {
                20_000
            };
            self.retry_after.insert(request.target.clone(), now.saturating_add(span));
            return;
        }
        match request.timestamp {
            Some(rejected) => {
                let ghost s0 = self.sent@;
                let stale = match self.sent.get(target) {
                    Some(sent) => sent.millis == rejected,
                    None => false,
                };
                if stale {
                    self.sent.remove(target);
                }
                let newer = match self.desired.get(target) {
                    Some(desired) => *desired > rejected,
                    None => false,
                };
                if !newer {
                    self.desired.remove(target);
                    self.rejected.insert(request.target.clone(), rejected);
                }
            },
            None => {
                self.rejected_queries.insert(request.target.clone());
                self.queried.remove(target);
            },
        }
        self.retry_after.remove(target);
    }
}

/// What is left to do after a message about read markers.
#[derive(Debug)]
pub struct MarkerOutcome {
    /// The message was about read markers.
    pub handled: bool,
    /// A conversation's buffer is read up to a time.
    pub apply: Option<(String, i64)>,
    /// A failure is reported in a server buffer.
    pub report: Option<(String, String)>,
}

/// Nothing is left to do.
pub open spec fn nothing_left(r: MarkerOutcome, handled: bool) -> bool {
    r.handled == handled && r.apply is None && r.report is None
}

/// The first server buffer of a connection.
pub open spec fn server_buffer(state: AppState, conn_id: Seq<char>, ids: Seq<Seq<char>>) -> Option<Seq<char>>
    decreases ids.len(),
{
    if ids.len() == 0 {
        None
    } else {
        match server_buffer(state, conn_id, ids.drop_last()) {
            Some(id) => Some(id),
            None => {
                let b = state.buffers@[ids.last()];
                if b.connection_id@ == conn_id && b.buffer_type == BufferType::Server {
                    Some(b.id@)
                } else {
                    None
                }
            },
        }
    }
}

proof fn lemma_server_buffer(state: AppState, conn_id: Seq<char>, ids: Seq<Seq<char>>, k: int)
    requires
        0 <= k <= ids.len(),
        server_buffer(state, conn_id, ids.take(k)) is Some,
    ensures
        server_buffer(state, conn_id, ids) == server_buffer(state, conn_id, ids.take(k)),
    decreases ids.len() - k,
{
    if k == ids.len() {
        assert(ids.take(k) =~= ids);
    } else {
        assert(ids.take(k + 1).drop_last() =~= ids.take(k));
        lemma_server_buffer(state, conn_id, ids, k + 1);
    }
}

/// The first server buffer of a connection.
pub fn find_server_buffer(state: &AppState, conn_id: &str) -> (r: Option<String>)
    ensures
        opt_text(r) == server_buffer(*state, conn_id@, state.buffers.keys()),
{
    let n: usize = state.buffers.len();
    let ghost keys = state.buffers.keys();
    let mut i: usize = 0;
    assert(keys.take(0) =~= Seq::<Seq<char>>::empty());
    while i < n
        invariant
            n == keys.len(),
            keys == state.buffers.keys(),
            i <= n,
            server_buffer(*state, conn_id@, keys.take(i as int)) is None,
        decreases n - i,
    {
        let b = state.buffers.value_at(i);
        proof {
            assert(keys.take(i + 1).drop_last() =~= keys.take(i as int));
            assert(keys.take(i + 1).last() == keys[i as int]);
        }
        if same(b.connection_id.as_str(), conn_id) && b.buffer_type == BufferType::Server {
            proof {
                lemma_server_buffer(*state, conn_id@, keys, i + 1);
            }
            return Some(b.id.clone());
        }
        i = i + 1;
    }
    assert(keys.take(n as int) =~= keys);
    None
}

/// The text that reports a failure; what the server said in it is no markup.
pub open spec fn failure_text(params: Seq<Seq<char>>) -> Seq<char> {
    doubled("Read-marker synchronization failed: "@ + join_seq(params.skip(1), seq![' ']))
}

/// The context of a failure.
pub open spec fn failure_context(params: Seq<Seq<char>>) -> Option<Seq<char>> {
    if params.len() > 3 {
        Some(params[2])
    } else {
        None
    }
}

/// What a failure of the bouncer does. The parameters are the verb, the code, then the context where
/// there are more than three, and the description.
pub open spec fn failure_handled(
    before: Map<Seq<char>, ReadMarkers>,
    after: Map<Seq<char>, ReadMarkers>,
    state: AppState,
    conn_id: Seq<char>,
    params: Seq<Seq<char>>,
    now: u64,
    r: MarkerOutcome,
) -> bool {
    let context = failure_context(params);
    if params.len() < 3 {
        after == before && nothing_left(r, true)
    } else if !before.contains_key(conn_id) {
        after == before && nothing_left(r, false)
    } else {
        let v = pending_views(before[conn_id].pending@);
        if exists|i: int| first_named(v, context, i) {
            &&& exists|i: int| #[trigger]
                first_named(v, context, i) && before[conn_id].failed(
                    after[conn_id],
                    i,
                    params[1] == "INTERNAL_ERROR"@,
                    now,
                )
            &&& after == before.insert(conn_id, after[conn_id])
            &&& r.handled
            &&& r.apply is None
            &&& match (r.report, server_buffer(state, conn_id, state.buffers.keys())) {
                (Some(report), Some(id)) => report.0@ == id && report.1@ == failure_text(params),
                (None, None) => true,
                _ => false,
            }
        } else {
            after == before && nothing_left(r, false)
        }
    }
}

/// Takes a failure of the bouncer.
pub fn handle_read_marker_failure(
    map: &mut StrMap<ReadMarkers>,
    state: &AppState,
    conn_id: &str,
    params: &Vec<String>,
    now: u64,
) -> (r: MarkerOutcome)
    ensures
        failure_handled(old(map)@, final(map)@, *state, conn_id@, texts(params@), now, r),
{
    let ghost m0 = map@;
    let ghost ps = texts(params@);
    if params.len() < 3 {
        return MarkerOutcome { handled: true, apply: None, report: None };
    }
    proof {
        assert(ps[1] == params@[1]@);
        assert(ps[2] == params@[2]@);
    }
    let context = if params.len() > 3 {
        Some(params[2].as_str())
    } else {
        None
    };
    let internal = same(params[1].as_str(), "INTERNAL_ERROR");
    match map.get_mut(conn_id) {
        None => {
            return MarkerOutcome { handled: false, apply: None, report: None };
        },
        Some(markers) => {
            let ghost start = *markers;
            match markers.find_named(context) {
                None => {
                    assert(forall|i: int| !first_named(
                        pending_views(start.pending@),
                        failure_context(ps),
                        i,
                    ));
                    assert(m0.insert(conn_id@, start) =~= m0);
                    return MarkerOutcome { handled: false, apply: None, report: None };
                },
                Some(i) => {
                    markers.fail(i, internal, now);
                    assert(first_named(pending_views(start.pending@), failure_context(ps), i as int));
                    assert(start.failed(*markers, i as int, ps[1] == "INTERNAL_ERROR"@, now));
                },
            }
        },
    }
    let report = match find_server_buffer(state, conn_id) {
        None => None,
        Some(id) => {
            proof {
                reveal_strlit(" ");
                assert(" "@ =~= seq![' ']);
                assert(texts(params@.skip(1)) =~= ps.skip(1));
            }
            let text = concat(
                "Read-marker synchronization failed: ",
                join_from(params, 1, " ").as_str(),
            );
            Some((id, escape_percent(text.as_str())))
        },
    };
    MarkerOutcome { handled: true, apply: None, report }
}

/// What a message about read markers does.
pub open spec fn marker_handled(
    before: Map<Seq<char>, ReadMarkers>,
    after: Map<Seq<char>, ReadMarkers>,
    state: AppState,
    conn_id: Seq<char>,
    verb: Seq<char>,
    params: Seq<Seq<char>>,
    now: u64,
    r: MarkerOutcome,
) -> bool {
    let ours = |v: Seq<char>| v == "MARKREAD"@ || v == "READ"@;
    let c = state.connections@[conn_id];
    let marker = marker_of(params[1], rfc3339_parsed(params[1].skip("timestamp="@.len() as int)));
    if verb == "FAIL"@ && params.len() > 0 && ours(params[0]) {
        failure_handled(before, after, state, conn_id, params, now, r)
    } else if !ours(verb) {
        after == before && nothing_left(r, false)
    } else if !state.connections@.contains_key(conn_id) || !keeps_markers(c) || marker_verb(c) is None
        || params.len() != 2 || params[0].len() == 0 || marker is None {
        after == before && nothing_left(r, true)
    } else {
        let time = match marker->0 {
            Marker::Unknown => None,
            Marker::Timestamp(millis) => Some(millis),
        };
        let target = lower_seq(params[0]);
        &&& after == before.insert(conn_id, after[conn_id])
        &&& exists|p: ReadMarkers|
            {
                &&& #[trigger] begun(before, conn_id, c.key(), p)
                &&& p.received(after[conn_id], target, time)
            }
        &&& r.handled
        &&& r.report is None
        &&& match r.apply {
            Some(a) => time == Some(a.1) && a.0@ == buffer_id_seq(conn_id, params[0])
                && after[conn_id].confirmed@[target] == time,
            None => time is None || after[conn_id].confirmed@[target] != time,
        }
    }
}

/// Takes a message of the bouncer about read markers: a marker moves what is known of a
/// conversation forward, and the buffer of the conversation is read up to there.
pub fn handle_read_marker(
    map: &mut StrMap<ReadMarkers>,
    state: &AppState,
    conn_id: &str,
    verb: &str,
    params: &Vec<String>,
    now: u64,
) -> (r: MarkerOutcome)
    ensures
        marker_handled(old(map)@, final(map)@, *state, conn_id@, verb@, texts(params@), now, r),
{
    let ghost m0 = map@;
    let ghost ps = texts(params@);
    proof {
        assert(params@.len() > 0 ==> ps[0] == params@[0]@);
        assert(params@.len() > 1 ==> ps[1] == params@[1]@);
    }
    if same(verb, "FAIL") && params.len() > 0 && (same(params[0].as_str(), "MARKREAD") || same(
        params[0].as_str(),
        "READ",
    )) {
        return handle_read_marker_failure(map, state, conn_id, params, now);
    }
    if !same(verb, "MARKREAD") && !same(verb, "READ") {
        return MarkerOutcome { handled: false, apply: None, report: None };
    }
    let done = MarkerOutcome { handled: true, apply: None, report: None };
    let scope = match state.connections.get(conn_id) {
        None => {
            return done;
        },
        Some(c) => {
            if !c.server_owns_history() || c.origin_config.bouncer_control || !(c.enabled_caps.contains(
                "draft/read-marker",
            ) || c.enabled_caps.contains("soju.im/read")) {
                return done;
            }
            c.network_key().clone()
        },
    };
    if params.len() != 2 || params[0].as_str().is_empty() {
        return done;
    }
    let marker = match parse_marker(params[1].as_str()) {
        None => {
            return done;
        },
        Some(marker) => marker,
    };
    let time = match marker {
        Marker::Unknown => None,
        Marker::Timestamp(millis) => Some(millis),
    };
    let mut markers = match map.remove(conn_id) {
        Some(m) => m,
        None => ReadMarkers::new(scope.as_str()),
    };
    markers.prepare_scope(scope.as_str());
    let ghost p = markers;
    assert(begun(m0, conn_id@, scope@, p));
    let target = lower(params[0].as_str());
    let moved = markers.receive(params[0].as_str(), time);
    let current = match markers.confirmed.get(target.as_str()) {
        Some(confirmed) => *confirmed == time,
        None => false,
    };
    map.insert(conn_id.to_string(), markers);
    assert(map@ =~= m0.insert(conn_id@, map@[conn_id@]));
    if !moved && !current {
        return done;
    }
    match time {
        None => done,
        Some(millis) => MarkerOutcome {
            handled: true,
            apply: Some((make_buffer_id(conn_id, params[0].as_str()), millis)),
            report: None,
        },
    }
}

/// What the bouncer confirmed for a conversation.
pub fn confirmed_read_marker(map: &StrMap<ReadMarkers>, conn_id: &str, target: &str) -> (r: Option<i64>)
    ensures
        r == (if map@.contains_key(conn_id@) && map@[conn_id@].confirmed@.contains_key(
            lower_seq(target@),
        ) {
            map@[conn_id@].confirmed@[lower_seq(target@)]
        } else {
            None
        }),
{
    match map.get(conn_id) {
        None => None,
        Some(markers) => {
            let key = lower(target);
            match markers.confirmed.get(key.as_str()) {
                None => None,
                Some(confirmed) => *confirmed,
            }
        },
    }
}

/// Nothing holds back a request about a conversation: no refusal, no failure that is still waited out, no
/// request of a moment ago, and, where no position waits to be told, no answer that is already there.
pub open spec fn unhindered(m: ReadMarkers, key: Seq<char>, now: u64) -> bool {
    &&& !m.rejected@.contains_key(key)
    &&& m.retry_after@.contains_key(key) ==> m.retry_after@[key] <= now
    &&& if m.desired@.contains_key(key) {
        m.sent@.contains_key(key) ==> m.sent@[key].at + (if m.sent@[key].millis == m.desired@[key] {
            SAME_MARKER_MS
        } else {
            OTHER_MARKER_MS
        }) <= now
    } else {
        &&& !m.rejected_queries@.contains(key)
        &&& !m.confirmed@.contains_key(key)
        &&& m.queried@.contains_key(key) ==> m.queried@[key] + QUERY_MS <= now
    }
}

/// A command asks about a conversation, or tells how far it was read.
pub open spec fn concerns(c: CommandV, verb: Seq<char>, key: Seq<char>, wanted: Option<i64>) -> bool {
    &&& c.verb == verb
    &&& c.params.len() == (if wanted is Some {
        2
    } else {
        1nat
    })
    &&& lower_seq(c.params[0]) == key
    &&& wanted matches Some(millis) ==> c.params[1] == marker_seq(millis)
}

/// A connection accepted a request about a conversation.
pub open spec fn request_out(
    before: IrcSender,
    after: IrcSender,
    verb: Seq<char>,
    key: Seq<char>,
    wanted: Option<i64>,
) -> bool {
    exists|i: int|
        before.accepted().len() <= i < after.accepted().len() && #[trigger] concerns(
            after.accepted()[i],
            verb,
            key,
            wanted,
        )
}

/// How many commands some connections accepted.
pub open spec fn newly_sent(
    h0: Map<Seq<char>, IrcHandle>,
    h1: Map<Seq<char>, IrcHandle>,
    ids: Seq<Seq<char>>,
) -> int
    decreases ids.len(),
{
    if ids.len() == 0 {
        0
    } else {
        newly_sent(h0, h1, ids.drop_last()) + (if h0.contains_key(ids.last()) {
            h1[ids.last()].sender.accepted().len() - h0[ids.last()].sender.accepted().len()
        } else {
            0
        })
    }
}

proof fn lemma_newly_same(
    h0: Map<Seq<char>, IrcHandle>,
    h1: Map<Seq<char>, IrcHandle>,
    h2: Map<Seq<char>, IrcHandle>,
    ids: Seq<Seq<char>>,
)
    requires
        forall|i: int| 0 <= i < ids.len() ==> h1[#[trigger] ids[i]] == h2[ids[i]],
    ensures
        newly_sent(h0, h1, ids) == newly_sent(h0, h2, ids),
    decreases ids.len(),
{
    if ids.len() > 0 {
        let rest = ids.drop_last();
        assert forall|i: int| 0 <= i < rest.len() implies h1[#[trigger] rest[i]] == h2[rest[i]] by {
            assert(rest[i] == ids[i]);
        }
        assert(h1[ids[ids.len() - 1]] == h2[ids[ids.len() - 1]]);
        lemma_newly_same(h0, h1, h2, rest);
    }
}

/// What is to be requested for a target is among all requests.
proof fn lemma_request_listed(m: ReadMarkers, v: Seq<TargetV>, now: u64, t: TargetV)
    requires
        v.contains(t),
        m.request(t, now) is Some,
    ensures
        m.requests(v, now).contains(m.request(t, now)->0),
    decreases v.len(),
{
    let rest = v.drop_last();
    let all = m.requests(v, now);
    let init = m.requests(rest, now);
    let r = m.request(t, now)->0;
    let k = v.index_of(t);
    if k < rest.len() {
        assert(rest[k] == t);
        lemma_request_listed(m, rest, now, t);
        let w = init.index_of(r);
        assert(all[w] == r);
    } else {
        assert(all[all.len() - 1] == r);
    }
}

/// The last target adds a request or none.
proof fn lemma_passed_grows(m: ReadMarkers, sender: IrcSender, v: Seq<TargetV>, now: u64, budget: nat)
    requires
        v.len() > 0,
    ensures
        m.passed(sender, v.drop_last(), now, budget).len() <= m.passed(sender, v, now, budget).len() <= budget,
{
}

/// Every open channel and query of a connection is a target, under its name in lower case.
proof fn lemma_named(state: AppState, conn_id: Seq<char>, ids: Seq<Seq<char>>, b: Seq<char>)
    requires
        ids.contains(b),
        state.buffers@[b].connection_id@ == conn_id,
        state.buffers@[b].buffer_type == BufferType::Channel || state.buffers@[b].buffer_type
            == BufferType::Query,
    ensures
        named_targets(state, conn_id, ids).contains_key(lower_seq(state.buffers@[b].name@)),
    decreases ids.len(),
{
    let k = ids.index_of(b);
    if k < ids.len() - 1 {
        assert(ids.drop_last()[k] == b);
        lemma_named(state, conn_id, ids.drop_last(), b);
    }
}

/// Targets stand under their names in lower case.
proof fn lemma_named_lower(state: AppState, conn_id: Seq<char>, ids: Seq<Seq<char>>)
    ensures
        forall|k: Seq<char>| #[trigger]
            named_targets(state, conn_id, ids).contains_key(k) ==> lower_seq(
                named_targets(state, conn_id, ids)[k],
            ) == k,
    decreases ids.len(),
{
    if ids.len() > 0 {
        lemma_named_lower(state, conn_id, ids.drop_last());
        let init = named_targets(state, conn_id, ids.drop_last());
        let all = named_targets(state, conn_id, ids);
        assert forall|k: Seq<char>| #[trigger] all.contains_key(k) implies lower_seq(all[k]) == k by {
            assert(init.contains_key(k) ==> lower_seq(init[k]) == k);
        }
    }
}

/// A connection's part of a round leaves a conversation unasked only where it cannot ask.
pub open spec fn served(
    m1: Map<Seq<char>, ReadMarkers>,
    h0: Map<Seq<char>, IrcHandle>,
    h1: Map<Seq<char>, IrcHandle>,
    id: Seq<char>,
    verb: Seq<char>,
    key: Seq<char>,
    wanted: Option<i64>,
    left: nat,
) -> bool {
    ||| request_out(h0[id].sender, h1[id].sender, verb, key, wanted)
    ||| h1[id].sender.room == Some(0u64)
    ||| m1[id].pending@.len() >= PENDING_MAX
    ||| left == 0
}

proof fn lemma_one_round_serves(
    m0: Map<Seq<char>, ReadMarkers>,
    m1: Map<Seq<char>, ReadMarkers>,
    h0: Map<Seq<char>, IrcHandle>,
    h1: Map<Seq<char>, IrcHandle>,
    state: AppState,
    id: Seq<char>,
    now: u64,
    budget: nat,
    left: nat,
    stop: bool,
    b: Seq<char>,
)
    requires
        one_round(m0, m1, h0, h1, state, id, now, budget, false, left, stop),
        takes_part(state, h0, id),
        m0.contains_key(id),
        m0[id].scope@ == state.connections@[id].key(),
        state.buffers.keys().contains(b),
        state.buffers@[b].connection_id@ == id,
        state.buffers@[b].buffer_type == BufferType::Channel || state.buffers@[b].buffer_type
            == BufferType::Query,
        unhindered(m0[id], lower_seq(state.buffers@[b].name@), now),
    ensures
        ({
            let key = lower_seq(state.buffers@[b].name@);
            let wanted = if m0[id].desired@.contains_key(key) {
                Some(m0[id].desired@[key])
            } else {
                None
            };
            served(m1, h0, h1, id, marker_verb(state.connections@[id])->0, key, wanted, left)
        }),
{
    let c = state.connections@[id];
    let sender = h0[id].sender;
    let verb = marker_verb(c)->0;
    let key = lower_seq(state.buffers@[b].name@);
    let names = named_targets(state, id, state.buffers.keys());
    let (m, v) = choose|m: ReadMarkers, v: Seq<TargetV>|
        {
            &&& #[trigger] ready(m0, id, c.key(), now, m)
            &&& #[trigger] round_targets(m, state, id, v)
            &&& m.requested(m1[id], sender, h1[id].sender, verb, v, now, budget)
            &&& left == budget - m.passed(sender, v, now, budget).len()
        };
    lemma_named(state, id, state.buffers.keys(), b);
    lemma_named_lower(state, id, state.buffers.keys());
    let t = TargetV { key, name: names[key] };
    assert(v.contains(t));
    assert(m.desired == m0[id].desired && m.sent == m0[id].sent && m.queried == m0[id].queried);
    assert(m.request(t, now) is Some);
    lemma_request_listed(m, v, now, t);
    let r = m.request(t, now)->0;
    let all = m.requests(v, now);
    let tried = m.tried(v, now, budget);
    let done = m.passed(sender, v, now, budget);
    let commands = request_commands(verb, tried);
    let q = all.index_of(r);
    if q < done.len() {
        let i = sender.accepted().len() + q;
        assert(tried[q] == r);
        assert(commands[q] == request_command(verb, r));
        assert(h1[id].sender.accepted()[i as int] == commands[q]);
        let wanted = if m0[id].desired@.contains_key(key) {
            Some(m0[id].desired@[key])
        } else {
            None
        };
        assert(concerns(h1[id].sender.accepted()[i as int], verb, key, wanted));
    } else {
        assert(pending_views(m1[id].pending@).len() == m1[id].pending@.len());
        assert(pending_views(m.pending@).len() == m.pending@.len());
        assert(as_pending(done, now).len() == done.len());
        if done.len() < tried.len() {
            assert(h1[id].sender.room == Some(0u64));
        } else {
            assert(tried.len() == m.allowance(budget));
        }
    }
}

proof fn lemma_round_serves(
    m0: Map<Seq<char>, ReadMarkers>,
    m1: Map<Seq<char>, ReadMarkers>,
    h0: Map<Seq<char>, IrcHandle>,
    h1: Map<Seq<char>, IrcHandle>,
    state: AppState,
    ids: Seq<Seq<char>>,
    now: u64,
    left: nat,
    stop: bool,
    id: Seq<char>,
    b: Seq<char>,
)
    requires
        round(m0, m1, h0, h1, state, ids, now, left, stop),
        ids.no_duplicates(),
        takes_part(state, h0, id),
        m0.contains_key(id),
        m0[id].scope@ == state.connections@[id].key(),
        state.buffers.keys().contains(b),
        state.buffers@[b].connection_id@ == id,
        state.buffers@[b].buffer_type == BufferType::Channel || state.buffers@[b].buffer_type
            == BufferType::Query,
        unhindered(m0[id], lower_seq(state.buffers@[b].name@), now),
    ensures
        left + newly_sent(h0, h1, ids) == ROUND_BUDGET,
        stop ==> left == 0,
        h1.dom() == h0.dom(),
        forall|k: Seq<char>| #[trigger] h1.contains_key(k) && !ids.contains(k) ==> h1[k] == h0[k],
        !ids.contains(id) ==> m1.contains_key(id) && m1[id] == m0[id],
        ids.contains(id) ==> ({
            let key = lower_seq(state.buffers@[b].name@);
            let wanted = if m0[id].desired@.contains_key(key) {
                Some(m0[id].desired@[key])
            } else {
                None
            };
            served(m1, h0, h1, id, marker_verb(state.connections@[id])->0, key, wanted, left)
        }),
    decreases ids.len(),
{
    if ids.len() > 0 {
        let rest = ids.drop_last();
        let last = ids.last();
        let (mm, mh, budget, stopped) = choose|
            mm: Map<Seq<char>, ReadMarkers>,
            mh: Map<Seq<char>, IrcHandle>,
            budget: nat,
            stopped: bool,
        |
            {
                &&& round(m0, mm, h0, mh, state, rest, now, budget, stopped)
                &&& #[trigger] one_round(mm, m1, mh, h1, state, last, now, budget, stopped, left, stop)
            };
        lemma_round_serves(m0, mm, h0, mh, state, rest, now, budget, stopped, id, b);
        assert(!rest.contains(last)) by {
            if rest.contains(last) {
                let j = rest.index_of(last);
                assert(ids[j] == ids[ids.len() - 1]);
            }
        }
        assert(ids.contains(last)) by {
            assert(ids[ids.len() - 1] == last);
        }
        assert forall|k: Seq<char>| #[trigger] rest.contains(k) implies ids.contains(k) by {
            assert(ids[rest.index_of(k)] == k);
        }
        assert forall|k: Seq<char>| #[trigger] ids.contains(k) implies k == last || rest.contains(k) by {
            let j = ids.index_of(k);
            if j < rest.len() {
                assert(rest[j] == k);
            }
        }
        assert forall|i: int| 0 <= i < rest.len() implies mh[#[trigger] rest[i]] == h1[rest[i]] by {
            assert(rest.contains(rest[i]));
            assert(rest[i] != last);
        }
        lemma_newly_same(h0, mh, h1, rest);
        if !stopped && takes_part(state, mh, last) {
            let c = state.connections@[last];
            let sender = mh[last].sender;
            let (m, v) = choose|m: ReadMarkers, v: Seq<TargetV>|
                {
                    &&& #[trigger] ready(mm, last, c.key(), now, m)
                    &&& #[trigger] round_targets(m, state, last, v)
                    &&& m.requested(m1[last], sender, h1[last].sender, marker_verb(c)->0, v, now, budget)
                    &&& left == budget - m.passed(sender, v, now, budget).len()
                    &&& stop == (v.len() > 0 && m.passed(sender, v.drop_last(), now, budget).len() == budget)
                };
            if v.len() > 0 {
                lemma_passed_grows(m, sender, v, now, budget);
            }
            assert(h1.dom() =~= h0.dom());
            assert(mh[last] == h0[last]);
            assert(h1[last].sender.accepted().len() - h0[last].sender.accepted().len() == m.passed(
                sender,
                v,
                now,
                budget,
            ).len());
        }
        if id == last {
            assert(mh.contains_key(id));
            assert(takes_part(state, mh, id));
            if !stopped {
                lemma_one_round_serves(mm, m1, mh, h1, state, id, now, budget, left, stop, b);
            }
        }
    }
}

/// Every open conversation is kept in step: for an open channel as for an open query of a connection that
/// takes part, a round sends the position that waits to be told, or asks for the position where none is
/// known, under the conversation's name, unless something holds it back, the connection takes nothing more,
/// too many requests have no answer yet, or the round's requests went to others.
pub proof fn open_conversations_are_kept_in_step(
    m0: Map<Seq<char>, ReadMarkers>,
    m1: Map<Seq<char>, ReadMarkers>,
    h0: Map<Seq<char>, IrcHandle>,
    h1: Map<Seq<char>, IrcHandle>,
    state: AppState,
    now: u64,
    id: Seq<char>,
    b: Seq<char>,
)
    requires
        markers_ticked(m0, m1, h0, h1, state, now),
        state.connections.ordered(),
        state.buffers.ordered(),
        state.connections@.contains_key(id),
        state.connections@[id].owns_history(),
        !state.connections@[id].origin_config.bouncer_control,
        state.connections@[id].status == ConnectionStatus::Connected,
        state.connections@[id].enabled_caps@.contains("draft/read-marker"@)
            || state.connections@[id].enabled_caps@.contains("soju.im/read"@),
        h0.contains_key(id),
        m0.contains_key(id),
        m0[id].scope@ == state.connections@[id].key(),
        state.buffers@.contains_key(b),
        state.buffers@[b].connection_id@ == id,
        state.buffers@[b].buffer_type == BufferType::Channel || state.buffers@[b].buffer_type
            == BufferType::Query,
        unhindered(m0[id], lower_seq(state.buffers@[b].name@), now),
    ensures
        ({
            let key = lower_seq(state.buffers@[b].name@);
            let verb = if state.connections@[id].enabled_caps@.contains("draft/read-marker"@) {
                "MARKREAD"@
            } else {
                "READ"@
            };
            let wanted = if m0[id].desired@.contains_key(key) {
                Some(m0[id].desired@[key])
            } else {
                None
            };
            ||| request_out(h0[id].sender, h1[id].sender, verb, key, wanted)
            ||| h1[id].sender.room == Some(0u64)
            ||| m1[id].pending@.len() >= PENDING_MAX
            ||| newly_sent(h0, h1, state.connections.keys()) == ROUND_BUDGET
        }),
{
    let ids = state.connections.keys();
    let (middle, left, stop) = choose|middle: Map<Seq<char>, ReadMarkers>, left: nat, stop: bool|
        {
            &&& #[trigger] kept_markers(m0, middle, state)
            &&& #[trigger] round(middle, m1, h0, h1, state, ids, now, left, stop)
        };
    assert(middle.contains_key(id));
    assert(ids.contains(id));
    lemma_round_serves(middle, m1, h0, h1, state, ids, now, left, stop, id, b);
}

/// Before anything is known of a network's markers, a round begins with its open conversations: the bouncer
/// is asked about each of them, channel or query, as far as the round's requests reach.
pub proof fn a_new_network_is_asked_about(
    m0: Map<Seq<char>, ReadMarkers>,
    m: ReadMarkers,
    state: AppState,
    id: Seq<char>,
    now: u64,
    b: Seq<char>,
    v: Seq<TargetV>,
)
    requires
        state.connections@.contains_key(id),
        !m0.contains_key(id) || m0[id].scope@ != state.connections@[id].key(),
        ready(m0, id, state.connections@[id].key(), now, m),
        round_targets(m, state, id, v),
        state.buffers.ordered(),
        state.buffers@.contains_key(b),
        state.buffers@[b].connection_id@ == id,
        state.buffers@[b].buffer_type == BufferType::Channel || state.buffers@[b].buffer_type
            == BufferType::Query,
    ensures
        exists|r: RequestV| #[trigger]
            m.requests(v, now).contains(r) && r.target == lower_seq(state.buffers@[b].name@) && r.millis is None
                && lower_seq(r.name) == r.target,
{
    let key = lower_seq(state.buffers@[b].name@);
    let names = named_targets(state, id, state.buffers.keys());
    lemma_named(state, id, state.buffers.keys(), b);
    lemma_named_lower(state, id, state.buffers.keys());
    let t = TargetV { key, name: names[key] };
    assert(v.contains(t));
    assert(m.request(t, now) is Some);
    lemma_request_listed(m, v, now, t);
    assert(m.requests(v, now).contains(m.request(t, now)->0));
}

/// A position that was read is wanted until the bouncer confirms it. Reading further never moves it back; an
/// answer that reaches it settles it, one that does not leaves it wanted; and what the bouncer confirmed is the
/// furthest that it ever said.
pub proof fn read_positions_wait_for_confirmation(
    before: ReadMarkers,
    marked: ReadMarkers,
    after: ReadMarkers,
    target: Seq<char>,
    millis: i64,
    time: i64,
)
    requires
        !before.rejected@.contains_key(target),
        before.confirmed@.contains_key(target) ==> (before.confirmed@[target] matches Some(t) ==> t < millis),
        before.marked(marked, target, millis),
        marked.received(after, target, Some(time)),
    ensures
        marked.desired@.contains_key(target),
        marked.desired@[target] >= millis,
        before.desired@.contains_key(target) ==> marked.desired@[target] >= before.desired@[target],
        marked.desired@[target] == millis || (before.desired@.contains_key(target) && marked.desired@[target]
            == before.desired@[target]),
        time >= marked.desired@[target] ==> !after.desired@.contains_key(target) && after.confirmed@[target]
            == Some(time),
        time < marked.desired@[target] ==> after.desired@.contains_key(target) && after.desired@[target]
            == marked.desired@[target],
        forall|other: Seq<char>| other != target ==> (#[trigger] after.desired@.contains_key(other)
            <==> before.desired@.contains_key(other)),
{
}

/// A position that the bouncer refused is not told again, while one that was read later is; a failure inside
/// the bouncer is waited out, ten seconds at first, and the position stays wanted.
pub proof fn refused_positions_are_not_told_again(
    before: ReadMarkers,
    after: ReadMarkers,
    further: ReadMarkers,
    i: int,
    internal: bool,
    now: u64,
    then: u64,
    name: Seq<char>,
    rejected: i64,
    millis: i64,
)
    requires
        0 <= i < before.pending@.len(),
        before.pending@[i].timestamp == Some(rejected),
        before.desired@.contains_key(before.pending@[i].target@),
        before.desired@[before.pending@[i].target@] == rejected,
        !before.rejected@.contains_key(before.pending@[i].target@),
        !before.confirmed@.contains_key(before.pending@[i].target@),
        !before.failures@.contains_key(before.pending@[i].target@),
        before.failed(after, i, internal, now),
        after.marked(further, before.pending@[i].target@, millis),
        now < 0x7fff_ffff_ffff_ffff,
    ensures
        ({
            let target = before.pending@[i].target@;
            let t = TargetV { key: target, name };
            &&& !internal ==> after.request(t, then) is None
            &&& !internal && millis <= rejected ==> further.request(t, then) is None
            &&& !internal && millis > rejected ==> further.desired@.contains_key(target)
                && further.desired@[target] == millis && !further.rejected@.contains_key(target)
            &&& internal && then < now + 10_000 ==> after.request(t, then) is None
            &&& internal && then >= now + 10_000 ==> after.desired@.contains_key(target)
                && after.desired@[target] == rejected && after.retry_after@[target] <= then
        }),
{
}

/// A position of a target is told or still to be told.
pub open spec fn settled(m: ReadMarkers, target: Seq<char>, millis: i64) -> bool {
    ||| m.confirmed@.contains_key(target) && at_least(m.confirmed@[target], Some(millis))
    ||| m.desired@.contains_key(target) && m.desired@[target] >= millis
}

/// What is read is told. Each boundary of reading in a conversation is used, once and in order, unless the
/// bouncer refused one of its target before; the position of one that is used is known to the bouncer, or it is
/// still to be told, or a later one in its place.
pub proof fn what_is_read_is_told(
    before: ReadMarkers,
    after: ReadMarkers,
    boundaries: Seq<Boundary>,
    used: Seq<usize>,
    n: int,
)
    requires
        boundaries_marked(before, after, boundaries, used),
        0 <= n < boundaries.len() <= usize::MAX,
        cut_first(boundaries[n].origin@, '/') is Some,
    ensures
        forall|i: int, j: int| 0 <= i < j < used.len() ==> (#[trigger] used[i]) < (#[trigger] used[j]),
        ({
            let target = lower_seq((cut_first(boundaries[n].origin@, '/')->0).1);
            &&& !before.rejected@.contains_key(target) ==> used.contains(n as usize)
            &&& used.contains(n as usize) ==> settled(after, target, boundaries[n].millis)
        }),
{
    lemma_read_is_told(before, after, boundaries, used, n, Seq::empty(), 0);
}

proof fn lemma_read_is_told(
    before: ReadMarkers,
    after: ReadMarkers,
    boundaries: Seq<Boundary>,
    used: Seq<usize>,
    n: int,
    t: Seq<char>,
    at: i64,
)
    requires
        boundaries_marked(before, after, boundaries, used),
    ensures
        forall|i: int| 0 <= i < used.len() ==> (#[trigger] used[i]) < boundaries.len(),
        forall|i: int, j: int| 0 <= i < j < used.len() ==> (#[trigger] used[i]) < (#[trigger] used[j]),
        settled(before, t, at) ==> settled(after, t, at),
        !before.rejected@.contains_key(t) ==> !after.rejected@.contains_key(t),
        0 <= n < boundaries.len() <= usize::MAX && cut_first(boundaries[n].origin@, '/') is Some ==> ({
            let target = lower_seq((cut_first(boundaries[n].origin@, '/')->0).1);
            &&& !before.rejected@.contains_key(target) ==> used.contains(n as usize)
            &&& used.contains(n as usize) ==> settled(after, target, boundaries[n].millis)
        }),
    decreases boundaries.len(),
{
    if boundaries.len() > 0 {
        let b = boundaries.last();
        let rest = boundaries.drop_last();
        let target = lower_seq((cut_first(boundaries[n].origin@, '/')->0).1);
        assert(boundaries[boundaries.len() - 1] == b);
        if 0 <= n < rest.len() {
            assert(rest[n] == boundaries[n]);
        }
        match cut_first(b.origin@, '/') {
            None => {
                lemma_read_is_told(before, after, rest, used, n, t, at);
            },
            Some(p) => {
                let middle = choose|middle: ReadMarkers|
                    {
                        &&& #[trigger] middle.marked(after, lower_seq(p.1), b.millis)
                        &&& if middle.refused(lower_seq(p.1), b.millis) {
                            boundaries_marked(before, middle, boundaries.drop_last(), used)
                        } else {
                            &&& used.len() > 0
                            &&& used.last() == boundaries.len() - 1
                            &&& boundaries_marked(before, middle, boundaries.drop_last(), used.drop_last())
                        }
                    };
                if middle.refused(lower_seq(p.1), b.millis) {
                    lemma_read_is_told(before, middle, rest, used, n, t, at);
                    lemma_read_is_told(before, middle, rest, used, n, target, at);
                } else {
                    let init = used.drop_last();
                    lemma_read_is_told(before, middle, rest, init, n, t, at);
                    lemma_read_is_told(before, middle, rest, init, n, target, at);
                    assert forall|i: int, j: int| 0 <= i < j < used.len() implies (#[trigger] used[i])
                        < (#[trigger] used[j]) by {
                        assert(used[i] == init[i]);
                        assert(init[i] < rest.len());
                        if j < init.len() {
                            assert(used[j] == init[j]);
                        }
                    }
                    assert forall|i: int| 0 <= i < used.len() implies (#[trigger] used[i]) < boundaries.len() by {
                        if i < init.len() {
                            assert(used[i] == init[i]);
                        }
                    }
                    assert(used[used.len() - 1] == boundaries.len() - 1);
                    if init.contains(n as usize) {
                        assert(used[init.index_of(n as usize)] == n as usize);
                    }
                    if used.contains(n as usize) && 0 <= n < rest.len() {
                        let i = used.index_of(n as usize);
                        assert(init[i] == n as usize);
                    }
                }
            },
        }
    }
}

} // verus!
