//! Requests whose answers the server labels.
use vstd::prelude::*;

use crate::app::{handle_took, lemma_took_one, IrcHandle};
use crate::collections::StrMap;
use crate::state::{buffer_id_seq, id_after, make_buffer_id, AppState, Connection, ConnectionStatus};
use crate::text::{concat, decimal, decimal_seq, opt_text, same};
use crate::typing::{elapsed, has_elapsed};
use crate::wire::{tag_views, Command, CommandV, Tag, TagV};

verus! {

broadcast use vstd::string::group_string_axioms;

/// How long an answer to a labeled request is waited for.
pub const LABEL_MS: u64 = 120_000;

/// The most labeled requests of one connection.
pub const LABEL_MAX: usize = 256;

/// A labeled request: the buffer that asked, and when.
#[derive(Debug)]
pub struct LabelEntry {
    pub buffer_id: String,
    pub at: u64,
}

/// The labeled requests of one connection.
pub struct Labels {
    pub entries: StrMap<LabelEntry>,
    pub counter: u64,
}

/// The label with a number.
pub open spec fn label_seq(n: u64) -> Seq<char> {
    "r"@ + decimal_seq(n as nat)
}

impl Labels {
    /// No requests.
    pub fn new() -> (r: Labels)
        ensures
            r.entries@ == Map::<Seq<char>, LabelEntry>::empty(),
            r.entries.keys() == Seq::<Seq<char>>::empty(),
            r.counter == 0,
    {
        Labels { entries: StrMap::new(), counter: 0 }
    }

    /// The requests that are not too old.
    pub open spec fn expired(&self, after: Labels, now: u64) -> bool {
        &&& after.counter == self.counter
        &&& forall|k: Seq<char>| #[trigger]
            after.entries@.contains_key(k) <==> self.entries@.contains_key(k) && !elapsed(
                now,
                self.entries@[k].at,
                LABEL_MS,
            )
        &&& forall|k: Seq<char>| #[trigger]
            after.entries@.contains_key(k) ==> after.entries@[k] == self.entries@[k]
    }

    /// Forgets the requests that are too old.
    pub fn expire(&mut self, now: u64)
        ensures
            old(self).expired(*final(self), now),
    {
        let ghost before = *self;
        let ghost keys = self.entries.keys();
        let mut keep: Vec<bool> = Vec::new();
        let n: usize = self.entries.len();
        let mut i: usize = 0;
        while i < n
            invariant
                n == keys.len(),
                keys == self.entries.keys(),
                *self == before,
                i <= n,
                keep@.len() == i,
                self.entries.ordered(),
                forall|j: int|
                    0 <= j < i ==> (#[trigger] keep@[j] <==> !elapsed(
                        now,
                        self.entries@[keys[j]].at,
                        LABEL_MS,
                    )),
            decreases n - i,
        {
            keep.push(!has_elapsed(now, self.entries.value_at(i).at, LABEL_MS));
            i = i + 1;
        }
        assert(self.entries.ordered());
        self.entries.retain(&keep);
        proof {
            assert forall|k: Seq<char>| #[trigger] self.entries@.contains_key(k) <==> before.entries@.contains_key(
                k,
            ) && !elapsed(now, before.entries@[k].at, LABEL_MS) by {
                if before.entries@.contains_key(k) {
                    let j = keys.index_of(k);
                    assert(keys[j] == k);
                    assert(keep@[j] <==> !elapsed(now, before.entries@[keys[j]].at, LABEL_MS));
                }
            }
        }
    }

    /// Takes the next label for a buffer's request, where there is room for one.
    pub fn register(&mut self, buffer_id: &str, now: u64) -> (r: Option<String>)
        ensures
            if old(self).entries.keys().len() < LABEL_MAX {
                let label = label_seq(id_after(old(self).counter));
                &&& opt_text(r) == Some(label)
                &&& final(self).counter == id_after(old(self).counter)
                &&& final(self).entries@ == old(self).entries@.insert(label, final(self).entries@[label])
                &&& final(self).entries@[label].buffer_id@ == buffer_id@
                &&& final(self).entries@[label].at == now
            } else {
                r is None && *final(self) == *old(self)
            },
    {
        if self.entries.len() >= LABEL_MAX {
            return None;
        }
        if self.counter == u64::MAX {
            assert((u64::MAX + 1) % 0x1_0000_0000_0000_0000 == 0);
            self.counter = 0;
        } else {
            self.counter = self.counter + 1;
        }
        let label = concat("r", decimal(self.counter).as_str());
        self.entries.insert(label.clone(), LabelEntry { buffer_id: buffer_id.to_string(), at: now });
        Some(label)
    }

    /// The buffer that a label's request came from.
    pub fn resolve(&self, label: &str) -> (r: Option<String>)
        ensures
            opt_text(r) == (if self.entries@.contains_key(label@) {
                Some(self.entries@[label@].buffer_id@)
            } else {
                None
            }),
    {
        match self.entries.get(label) {
            Some(entry) => Some(entry.buffer_id.clone()),
            None => None,
        }
    }

    /// A label's request is answered.
    pub fn finish(&mut self, label: &str)
        ensures
            final(self).counter == old(self).counter,
            final(self).entries@ == old(self).entries@.remove(label@),
    {
        self.entries.remove(label);
    }
}

/// A connection labels answers.
pub open spec fn labels_answers(c: Connection) -> bool {
    c.enabled_caps@.contains("labeled-response"@) && c.enabled_caps@.contains("batch"@)
}

/// A connection that is there labels answers.
pub open spec fn labels_on(state: AppState, id: Seq<char>) -> bool {
    state.connections@.contains_key(id) && labels_answers(state.connections@[id])
}

/// The labeled requests that are still waited for: those of live connections that label answers,
/// without the ones that are too old.
pub open spec fn labels_ticked(
    before: Map<Seq<char>, Labels>,
    after: Map<Seq<char>, Labels>,
    state: AppState,
    now: u64,
) -> bool {
    &&& forall|id: Seq<char>| #[trigger]
        after.contains_key(id) <==> before.contains_key(id) && state.connections@.contains_key(id)
            && labels_answers(state.connections@[id]) && state.connections@[id].status
            == ConnectionStatus::Connected
    &&& forall|id: Seq<char>| #[trigger] after.contains_key(id) ==> before[id].expired(after[id], now)
}

/// Whether a connection labels answers.
fn answers_labeled(state: &AppState, id: &str) -> (r: bool)
    ensures
        r == labels_on(*state, id@),
{
    match state.connections.get(id) {
        None => false,
        Some(c) => c.enabled_caps.contains("labeled-response") && c.enabled_caps.contains("batch"),
    }
}

/// Forgets labeled requests that no answer will come to.
pub fn tick_labels(map: &mut StrMap<Labels>, state: &AppState, now: u64)
    ensures
        labels_ticked(old(map)@, final(map)@, *state, now),
{
    let ghost m0 = map@;
    let ghost keys = map.keys();
    let mut keep: Vec<bool> = Vec::new();
    let n: usize = map.len();
    let mut i: usize = 0;
    while i < n
        invariant
            n == keys.len(),
            keys == map.keys(),
            map@ == m0,
            i <= n,
            keep@.len() == i,
            map.ordered(),
            forall|j: int|
                0 <= j < i ==> (#[trigger] keep@[j] <==> state.connections@.contains_key(keys[j])
                    && labels_answers(state.connections@[keys[j]]) && state.connections@[keys[j]].status
                    == ConnectionStatus::Connected),
        decreases n - i,
    {
        let id = map.key_at(i);
        let connected = match state.connections.get(id.as_str()) {
            None => false,
            Some(c) => c.status == ConnectionStatus::Connected,
        };
        keep.push(connected && answers_labeled(state, id.as_str()));
        i = i + 1;
    }
    assert(map.ordered());
    map.retain(&keep);
    let ghost m1 = map@;
    let ghost kept = map.keys();
    proof {
        assert forall|id: Seq<char>| #[trigger] m1.contains_key(id) <==> m0.contains_key(id)
            && state.connections@.contains_key(id) && labels_answers(state.connections@[id])
            && state.connections@[id].status == ConnectionStatus::Connected by {
            if m0.contains_key(id) {
                let j = keys.index_of(id);
                assert(keys[j] == id);
                assert(keep@[j] <==> state.connections@.contains_key(keys[j]) && labels_answers(
                    state.connections@[keys[j]],
                ) && state.connections@[keys[j]].status == ConnectionStatus::Connected);
            }
        }
    }
    let m: usize = map.len();
    let mut k: usize = 0;
    while k < m
        invariant
            m == kept.len(),
            kept == map.keys(),
            kept.no_duplicates(),
            k <= m,
            map@.dom() == m1.dom(),
            forall|x: Seq<char>| #[trigger] m1.contains_key(x) ==> kept.contains(x),
            forall|j: int| 0 <= j < m ==> m1.contains_key(#[trigger] kept[j]),
            forall|j: int| k <= j < m ==> map@[#[trigger] kept[j]] == m1[kept[j]],
            forall|j: int| 0 <= j < k ==> m1[#[trigger] kept[j]].expired(map@[kept[j]], now),
        decreases m - k,
    {
        let id = map.key_at(k).clone();
        let ghost was = map@;
        match map.get_mut(id.as_str()) {
            Some(labels) => labels.expire(now),
            None => {},
        }
        proof {
            assert(map@.dom() =~= m1.dom());
            assert forall|j: int| k + 1 <= j < m implies map@[#[trigger] kept[j]] == m1[kept[j]] by {
                assert(kept[j] != kept[k as int]);
            }
            assert forall|j: int| 0 <= j < k + 1 implies m1[#[trigger] kept[j]].expired(map@[kept[j]], now) by {
                if j < k {
                    assert(kept[j] != kept[k as int]);
                }
            }
        }
        k = k + 1;
    }
    proof {
        assert forall|id: Seq<char>| #[trigger] map@.contains_key(id) implies m0[id].expired(map@[id], now) by {
            assert(m1.contains_key(id));
            let j = kept.index_of(id);
            assert(kept[j] == id);
        }
    }
}

/// Why a labeled request did not go out.
#[derive(Clone, Copy, Debug, PartialEq, Eq, Structural)]
pub enum LabelError {
    NoBuffer,
    NotConnected,
    SendFailed,
}

/// A command under a label.
pub open spec fn labeled(command: CommandV, label: Option<Seq<char>>) -> CommandV {
    match label {
        Some(label) => CommandV { tags: seq![TagV { key: "label"@, value: Some(label) }], ..command },
        None => command,
    }
}

/// What a request from the active buffer does: under a label where the connection labels answers and
/// there is room for one more, and without a trace where it does not go out.
pub open spec fn request_sent(
    before: Map<Seq<char>, Labels>,
    after: Map<Seq<char>, Labels>,
    state: AppState,
    handles: Map<Seq<char>, IrcHandle>,
    handles_after: Map<Seq<char>, IrcHandle>,
    command: CommandV,
    now: u64,
    r: Result<(), LabelError>,
) -> bool {
    match state.active() {
        None => after == before && handles_after == handles && r == Err::<(), LabelError>(
            LabelError::NoBuffer,
        ),
        Some(b) => {
            let id = b.connection_id@;
            if !handles.contains_key(id) {
                after == before && handles_after == handles && r == Err::<(), LabelError>(
                    LabelError::NotConnected,
                )
            } else {
                let open = handles[id].sender.open();
                &&& r == (if open {
                    Ok::<(), LabelError>(())
                } else {
                    Err(LabelError::SendFailed)
                })
                &&& handles_after.dom() == handles.dom()
                &&& forall|k: Seq<char>| #[trigger]
                    handles.contains_key(k) && k != id ==> handles_after[k] == handles[k]
                &&& exists|middle: Map<Seq<char>, Labels>, label: Option<Seq<char>>|
                    {
                        &&& #[trigger] labels_ticked(before, middle, state, now)
                        &&& #[trigger] label_taken(
                            middle,
                            after,
                            id,
                            b.id@,
                            labels_on(state, id),
                            open,
                            now,
                            label,
                        )
                        &&& handle_took(handles[id], handles_after[id], seq![labeled(command, label)])
                    }
            }
        },
    }
}

/// A label was taken for a request of a buffer, unless the connection does not label answers or has
/// no room; a request that did not go out keeps none.
pub open spec fn label_taken(
    before: Map<Seq<char>, Labels>,
    after: Map<Seq<char>, Labels>,
    id: Seq<char>,
    buffer_id: Seq<char>,
    enabled: bool,
    open: bool,
    now: u64,
    label: Option<Seq<char>>,
) -> bool {
    let counter = if before.contains_key(id) {
        before[id].counter
    } else {
        0
    };
    if !enabled {
        label is None && after == before
    } else {
        &&& forall|k: Seq<char>| k != id ==> (#[trigger] after.contains_key(k) <==> before.contains_key(k))
        &&& forall|k: Seq<char>| k != id && #[trigger] after.contains_key(k) ==> after[k] == before[k]
        &&& after.contains_key(id)
        &&& if before.contains_key(id) && before[id].entries.keys().len() >= LABEL_MAX {
            label is None && after[id] == before[id]
        } else {
            let l = label_seq(id_after(counter));
            let old_entries = if before.contains_key(id) {
                before[id].entries@
            } else {
                Map::<Seq<char>, LabelEntry>::empty()
            };
            &&& label == Some(l)
            &&& after[id].counter == id_after(counter)
            &&& if open {
                &&& after[id].entries@ == old_entries.insert(l, after[id].entries@[l])
                &&& after[id].entries@[l].buffer_id@ == buffer_id
                &&& after[id].entries@[l].at == now
            } else {
                after[id].entries@ == old_entries.remove(l)
            }
        }
    }
}

/// Sends a request from the active buffer, under a label where its connection labels answers.
pub fn send_active_labeled_request(
    map: &mut StrMap<Labels>,
    state: &AppState,
    handles: &mut StrMap<IrcHandle>,
    command: Command,
    now: u64,
) -> (r: Result<(), LabelError>)
    requires
        command@.tags.len() == 0,
    ensures
        final(handles).keys() == old(handles).keys(),
        request_sent(
            old(map)@,
            final(map)@,
            *state,
            old(handles)@,
            final(handles)@,
            command@,
            now,
            r,
        ),
{
    let ghost m0 = map@;
    let ghost h0 = handles@;
    let ghost c0 = command@;
    let (id, buffer_id) = match state.active_buffer() {
        None => {
            return Err(LabelError::NoBuffer);
        },
        Some(b) => (b.connection_id.clone(), b.id.clone()),
    };
    if !handles.contains(id.as_str()) {
        return Err(LabelError::NotConnected);
    }
    tick_labels(map, state, now);
    let ghost m1 = map@;
    assert(labels_ticked(m0, m1, *state, now));
    let enabled = answers_labeled(state, id.as_str());
    let label = if enabled {
        if !map.contains(id.as_str()) {
            map.insert(id.clone(), Labels::new());
        }
        match map.get_mut(id.as_str()) {
            Some(labels) => labels.register(buffer_id.as_str(), now),
            None => None,
        }
    } else {
        None
    };
    let ghost lv = opt_text(label);
    let mut message = command;
    match &label {
        Some(label) => {
            assert(tag_views(message.tags@).len() == message.tags@.len());
            message.tags.push(Tag { key: "label".to_string(), value: Some(label.clone()) });
            assert(tag_views(message.tags@) =~= labeled(c0, lv).tags);
        },
        None => {},
    }
    let ghost mv = message@;
    assert(mv == labeled(c0, lv));
    let ok = match handles.get_mut(id.as_str()) {
        None => false,
        Some(handle) => {
            let ghost s0 = handle.sender;
            let ok = handle.sender.send(message).is_ok();
            proof {
                lemma_took_one(s0, handle.sender, mv);
            }
            ok
        },
    };
    if !ok {
        match label {
            Some(label) => match map.get_mut(id.as_str()) {
                Some(labels) => {
                    let ghost e = labels.entries@;
                    labels.finish(label.as_str());
                },
                None => {},
            },
            None => {},
        }
    }
    proof {
        let b = state.active()->0;
        assert(handles@.dom() =~= h0.dom());
        if enabled && lv is Some && !ok {
            let l = lv->0;
            let old_entries = if m1.contains_key(id@) {
                m1[id@].entries@
            } else {
                Map::<Seq<char>, LabelEntry>::empty()
            };
            assert(map@[id@].entries@ =~= old_entries.remove(l));
        }
        assert(label_taken(m1, map@, id@, b.id@, enabled, h0[id@].sender.open(), now, lv));
    }
    if ok {
        Ok(())
    } else {
        Err(LabelError::SendFailed)
    }
}

/// The buffer that an answer belongs to: the one that asked, where it is still there on that
/// connection, else the server buffer of the connection.
pub open spec fn response_buffer(
    labels: Map<Seq<char>, Labels>,
    state: AppState,
    id: Seq<char>,
    label: Seq<char>,
) -> Option<Seq<char>> {
    let asked = labels.contains_key(id) && labels[id].entries@.contains_key(label) && ({
        let b = labels[id].entries@[label].buffer_id@;
        state.buffers@.contains_key(b) && state.buffers@[b].connection_id@ == id
    });
    if asked {
        Some(labels[id].entries@[label].buffer_id@)
    } else if state.connections@.contains_key(id) {
        Some(buffer_id_seq(id, state.connections@[id].label@))
    } else {
        None
    }
}

/// The buffer that a labeled answer belongs to; an answer without a label belongs to none.
pub fn labeled_response_buffer(
    map: &mut StrMap<Labels>,
    state: &AppState,
    id: &str,
    label: Option<&str>,
    now: u64,
) -> (r: Option<String>)
    ensures
        match label {
            None => r is None && *final(map) == *old(map),
            Some(label) => labels_ticked(old(map)@, final(map)@, *state, now) && opt_text(r)
                == response_buffer(final(map)@, *state, id@, label@),
        },
{
    let label = match label {
        None => {
            return None;
        },
        Some(label) => label,
    };
    tick_labels(map, state, now);
    let asked = match map.get(id) {
        None => None,
        Some(labels) => labels.resolve(label),
    };
    match asked {
        Some(buffer_id) => match state.buffers.get(buffer_id.as_str()) {
            Some(b) => {
                if same(b.connection_id.as_str(), id) {
                    return Some(buffer_id);
                }
            },
            None => {},
        },
        None => {},
    }
    match state.connections.get(id) {
        None => None,
        Some(c) => Some(make_buffer_id(id, c.label.as_str())),
    }
}

/// A labeled answer is complete.
pub fn finish_labeled_response(map: &mut StrMap<Labels>, id: &str, label: &str)
    ensures
        if old(map)@.contains_key(id@) {
            &&& final(map)@ == old(map)@.insert(id@, final(map)@[id@])
            &&& final(map)@[id@].counter == old(map)@[id@].counter
            &&& final(map)@[id@].entries@ == old(map)@[id@].entries@.remove(label@)
        } else {
            *final(map) == *old(map)
        },
{
    match map.get_mut(id) {
        Some(labels) => labels.finish(label),
        None => {},
    }
}

/// An answer goes where the question came from: a request that went out under a label is answered into the
/// buffer that was active when it was sent, as long as the buffer is there and two minutes have not passed.
pub proof fn answers_go_where_the_question_came_from(
    before: Map<Seq<char>, Labels>,
    asked: Map<Seq<char>, Labels>,
    answered: Map<Seq<char>, Labels>,
    state: AppState,
    later: AppState,
    h0: Map<Seq<char>, IrcHandle>,
    h1: Map<Seq<char>, IrcHandle>,
    command: CommandV,
    now: u64,
    then: u64,
    label: Seq<char>,
)
    requires
        state.active() is Some,
        request_sent(before, asked, state, h0, h1, command, now, Ok(())),
        ({
            let id = state.active()->0.connection_id@;
            let b = state.active()->0.id@;
            let sent = h1[id].sender.accepted();
            &&& sent.len() > 0
            &&& sent.last().tags == seq![TagV { key: "label"@, value: Some(label) }]
            &&& command.tags.len() == 0
            &&& later.connections@.contains_key(id)
            &&& later.connections@[id].enabled_caps@.contains("labeled-response"@)
            &&& later.connections@[id].enabled_caps@.contains("batch"@)
            &&& later.connections@[id].status == ConnectionStatus::Connected
            &&& later.buffers@.contains_key(b)
            &&& later.buffers@[b].connection_id@ == id
        }),
        then < now + 120_000,
        labels_ticked(asked, answered, later, then),
    ensures
        response_buffer(answered, later, state.active()->0.connection_id@, label) == Some(state.active()->0.id@),
{
    let id = state.active()->0.connection_id@;
    let b = state.active()->0.id@;
    let open = h0[id].sender.open();
    let (middle, l) = choose|middle: Map<Seq<char>, Labels>, l: Option<Seq<char>>|
        {
            &&& #[trigger] labels_ticked(before, middle, state, now)
            &&& #[trigger] label_taken(middle, asked, id, b, labels_on(state, id), open, now, l)
            &&& handle_took(h0[id], h1[id], seq![labeled(command, l)])
        };
    let one = seq![labeled(command, l)];
    assert(one.take(1) =~= one);
    assert(h1[id].sender.accepted().last() == labeled(command, l));
    if l is None {
        assert(h1[id].sender.accepted().last().tags.len() == 0);
    } else {
        let tags = h1[id].sender.accepted().last().tags;
        assert(tags[0] == (TagV { key: "label"@, value: l }));
    }
    assert(l == Some(label));
    assert(asked[id].entries@.contains_key(label));
    assert(answered.contains_key(id));
    assert(answered[id].entries@.contains_key(label));
}

/// A request keeps no label where it did not go out, and carries one where the connection labels answers and
/// has room for one more.
pub proof fn requests_are_labeled_where_answers_are(
    before: Map<Seq<char>, Labels>,
    asked: Map<Seq<char>, Labels>,
    state: AppState,
    h0: Map<Seq<char>, IrcHandle>,
    h1: Map<Seq<char>, IrcHandle>,
    command: CommandV,
    now: u64,
)
    requires
        state.active() is Some,
        command.tags.len() == 0,
        request_sent(before, asked, state, h0, h1, command, now, Ok(())),
    ensures
        ({
            let id = state.active()->0.connection_id@;
            let sent = h1[id].sender.accepted();
            let labels = state.connections@.contains_key(id)
                && state.connections@[id].enabled_caps@.contains("labeled-response"@)
                && state.connections@[id].enabled_caps@.contains("batch"@);
            &&& sent.len() == h0[id].sender.accepted().len() + 1
            &&& sent.last().verb == command.verb
            &&& sent.last().params == command.params
            &&& !labels ==> sent.last().tags.len() == 0
            &&& labels && !before.contains_key(id) ==> sent.last().tags.len() == 1 && sent.last().tags[0].key
                == "label"@
        }),
{
    let id = state.active()->0.connection_id@;
    let b = state.active()->0.id@;
    let (middle, l) = choose|middle: Map<Seq<char>, Labels>, l: Option<Seq<char>>|
        {
            &&& #[trigger] labels_ticked(before, middle, state, now)
            &&& #[trigger] label_taken(middle, asked, id, b, labels_on(state, id), h0[id].sender.open(), now, l)
            &&& handle_took(h0[id], h1[id], seq![labeled(command, l)])
        };
    let one = seq![labeled(command, l)];
    assert(one.take(1) =~= one);
    assert(h1[id].sender.accepted().last() == labeled(command, l));
}

} // verus!
