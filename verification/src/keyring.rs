//! What the client remembers about encrypted conversations.
use vstd::prelude::*;

use crate::collections::StrMap;
use crate::text::{concat, cut_last, lower, lower_seq, opt_text, rsplit_once, same_ignoring_case};

verus! {

broadcast use vstd::string::group_string_axioms;

/// The character between the network and the conversation of a scoped context.
pub const SCOPE_MARK: char = '\u{1f}';

/// The context of a conversation on one network.
pub open spec fn scoped_seq(network: Seq<char>, wire: Seq<char>) -> Seq<char> {
    network + seq![SCOPE_MARK] + wire
}

/// A context without its network.
pub open spec fn wire_seq(context: Seq<char>) -> Seq<char> {
    match cut_last(context, SCOPE_MARK) {
        Some(p) => p.1,
        None => context,
    }
}

/// The network of a context, with the mark behind it.
pub open spec fn scope_part(context: Seq<char>) -> Seq<char> {
    match cut_last(context, SCOPE_MARK) {
        Some(p) => p.0.push(SCOPE_MARK),
        None => Seq::empty(),
    }
}

/// Whether a target names a channel.
pub open spec fn channel_target(target: Seq<char>) -> bool {
    target.len() > 0 && (target[0] == '#' || target[0] == '&' || target[0] == '!' || target[0] == '+')
}

/// The conversation key of a target: a channel by its name, anyone else by the handle.
pub open spec fn context_key_seq(target: Seq<char>, handle: Seq<char>) -> Seq<char> {
    if channel_target(target) {
        target
    } else {
        seq!['@'] + handle
    }
}

/// The context of a conversation on one network.
pub fn scoped_context(network: &str, wire: &str) -> (r: String)
    ensures
        r@ == scoped_seq(network@, wire@),
{
    let mut r = network.to_string();
    r.push(SCOPE_MARK);
    assert(r@ =~= network@ + seq![SCOPE_MARK]);
    r.append(wire);
    r
}

/// A context without its network.
pub fn wire_context(context: &str) -> (r: String)
    ensures
        r@ == wire_seq(context@),
{
    match rsplit_once(context, SCOPE_MARK) {
        Some((_, wire)) => wire,
        None => context.to_string(),
    }
}

/// Whether a target names a channel.
pub fn is_channel_target(target: &str) -> (r: bool)
    ensures
        r == channel_target(target@),
{
    let v = crate::text::chars_of(target);
    v.len() > 0 && (v[0] == '#' || v[0] == '&' || v[0] == '!' || v[0] == '+')
}

/// The conversation key of a target.
pub fn context_key(target: &str, handle: &str) -> (r: String)
    ensures
        r@ == context_key_seq(target@, handle@),
{
    if is_channel_target(target) {
        target.to_string()
    } else {
        let mut r = String::new();
        r.push('@');
        assert(r@ =~= seq!['@']);
        r.append(handle);
        r
    }
}

/// A keyring row could not be read.
#[derive(Clone, Copy, Debug, PartialEq, Eq, Structural)]
pub struct ReadFault;

/// Which reads fail at the moment.
#[derive(Clone, Copy, Debug, PartialEq, Eq, Structural)]
pub struct Faults {
    pub handles: bool,
    pub rows: bool,
    pub configs: bool,
}

/// The conversations with encryption settings, the last known handles of peers and the networks in
/// play.
pub struct Keyring {
    /// Whether encryption is on, per context.
    pub configs: StrMap<bool>,
    /// The last handle of a nick on a network, by the scoped context of the nick.
    pub handles: StrMap<String>,
    /// The last handle of a nick from before handles were kept per network.
    pub peers: StrMap<String>,
    pub networks: Vec<String>,
    pub faults: Faults,
}

impl Keyring {
    /// Whether rows from before contexts were scoped may stand in for scoped ones.
    pub open spec fn legacy_allowed(&self) -> bool {
        self.networks@.len() <= 1
    }

    /// The setting that applies to a context.
    pub open spec fn config(&self, context: Seq<char>) -> Option<bool> {
        if self.configs@.contains_key(context) {
            Some(self.configs@[context])
        } else if self.legacy_allowed() && self.configs@.contains_key(wire_seq(context)) {
            Some(self.configs@[wire_seq(context)])
        } else {
            None
        }
    }

    /// Whether encryption is on for a context.
    pub open spec fn enabled(&self, context: Seq<char>) -> bool {
        self.config(context) == Some(true)
    }

    /// The context that the stored row `i` stands for when a channel is looked up: the row, where it
    /// differs from the context at most in case, or the same network's context in the spelling of a row
    /// from before contexts were scoped.
    pub open spec fn spelled(&self, context: Seq<char>, i: int) -> Option<Seq<char>> {
        let row = self.configs.keys()[i];
        if lower_seq(row) == lower_seq(context) {
            Some(row)
        } else if self.legacy_allowed() && lower_seq(row) == lower_seq(wire_seq(context)) {
            Some(scope_part(context) + row)
        } else {
            None
        }
    }

    /// The stored row `i` turns encryption on for a channel.
    pub open spec fn turns_on(&self, context: Seq<char>, i: int) -> bool {
        0 <= i < self.configs.keys().len() && (self.spelled(context, i) matches Some(c) && self.enabled(c))
    }

    /// The stored row `i` is the first that turns encryption on for a channel.
    pub open spec fn first_on(&self, context: Seq<char>, i: int) -> bool {
        self.turns_on(context, i) && forall|j: int| 0 <= j < i ==> !self.turns_on(context, j)
    }

    /// The spelling under which encryption is on for a channel: its own, or the first that differs only
    /// in case. A channel with encryption on under any spelling is never missed.
    pub open spec fn canonical(&self, context: Seq<char>) -> Option<Seq<char>> {
        if self.enabled(context) {
            Some(context)
        } else if exists|i: int| self.first_on(context, i) {
            self.spelled(context, choose|i: int| self.first_on(context, i))
        } else {
            None
        }
    }

    /// The last known handle of `nick` on `network`.
    pub open spec fn handle(&self, nick: Seq<char>, network: Seq<char>) -> Option<Seq<char>> {
        if self.handles@.contains_key(scoped_seq(network, lower_seq(nick))) {
            Some(self.handles@[scoped_seq(network, lower_seq(nick))]@)
        } else if self.peers@.contains_key(lower_seq(nick)) {
            Some(self.peers@[lower_seq(nick)]@)
        } else {
            None
        }
    }

    /// A keyring with nothing in it.
    pub fn new() -> (r: Keyring)
        ensures
            r.configs@ == Map::<Seq<char>, bool>::empty(),
            r.handles@ == Map::<Seq<char>, String>::empty(),
            r.peers@ == Map::<Seq<char>, String>::empty(),
            r.networks@ == Seq::<String>::empty(),
            r.faults == (Faults { handles: false, rows: false, configs: false }),
    {
        Keyring {
            configs: StrMap::new(),
            handles: StrMap::new(),
            peers: StrMap::new(),
            networks: Vec::new(),
            faults: Faults { handles: false, rows: false, configs: false },
        }
    }

    /// Turns encryption on or off for a context.
    pub fn set_channel_config(&mut self, context: &str, enabled: bool)
        ensures
            *final(self) == (Keyring { configs: final(self).configs, ..*old(self) }),
            final(self).configs@ == old(self).configs@.insert(context@, enabled),
    {
        self.configs.insert(context.to_string(), enabled);
    }

    /// Remembers the handle of `nick` on `network`.
    pub fn cache_dm_handle(&mut self, network: &str, nick: &str, handle: &str)
        ensures
            *final(self) == (Keyring { handles: final(self).handles, ..*old(self) }),
            final(self).handle(nick@, network@) == Some(handle@),
            final(self).handles@ == old(self).handles@.insert(
                scoped_seq(network@, lower_seq(nick@)),
                final(self).handles@[scoped_seq(network@, lower_seq(nick@))],
            ),
    {
        let key = scoped_context(network, lower(nick).as_str());
        self.handles.insert(key, handle.to_string());
    }

    /// Sets the networks in play.
    pub fn set_configured_networks(&mut self, networks: Vec<String>)
        ensures
            *final(self) == (Keyring { networks: final(self).networks, ..*old(self) }),
            final(self).networks@ == networks@,
    {
        self.networks = networks;
    }

    /// The setting that applies to a context.
    fn lookup(&self, context: &str) -> (r: Option<bool>)
        ensures
            r == self.config(context@),
    {
        match self.configs.get(context) {
            Some(on) => Some(*on),
            None => {
                if self.networks.len() <= 1 {
                    let wire = wire_context(context);
                    match self.configs.get(wire.as_str()) {
                        Some(on) => Some(*on),
                        None => None,
                    }
                } else {
                    None
                }
            },
        }
    }

    /// The setting of a context; a failed read is an error.
    pub fn get_channel_config(&self, context: &str) -> (r: Result<Option<bool>, ReadFault>)
        ensures
            r == (if self.faults.configs {
                Err(ReadFault)
            } else {
                Ok(self.config(context@))
            }),
    {
        if self.faults.configs {
            return Err(ReadFault);
        }
        Ok(self.lookup(context))
    }

    /// The context that the stored row `i` stands for when a channel is looked up.
    fn spell(&self, context: &str, wire: &str, scope: &str, i: usize) -> (r: Option<String>)
        requires
            i < self.configs.keys().len(),
            wire@ == wire_seq(context@),
            scope@ == scope_part(context@),
        ensures
            opt_text(r) == self.spelled(context@, i as int),
    {
        let row = self.configs.key_at(i);
        if same_ignoring_case(row.as_str(), context) {
            Some(row.clone())
        } else if self.networks.len() <= 1 && same_ignoring_case(row.as_str(), wire) {
            Some(concat(scope, row.as_str()))
        } else {
            None
        }
    }

    /// The spelling under which encryption is on for a channel; a failed read is an error.
    pub fn canonical_channel_context(&self, context: &str) -> (r: Result<Option<String>, ReadFault>)
        ensures
            match r {
                Ok(c) => !self.faults.rows && opt_text(c) == self.canonical(context@),
                Err(_) => self.faults.rows,
            },
    {
        if self.faults.rows {
            return Err(ReadFault);
        }
        if self.lookup(context) == Some(true) {
            return Ok(Some(context.to_string()));
        }
        let (scope, wire) = match rsplit_once(context, SCOPE_MARK) {
            Some((scope, wire)) => {
                let mut scope = scope;
                scope.push(SCOPE_MARK);
                (scope, wire)
            },
            None => (String::new(), context.to_string()),
        };
        let n: usize = self.configs.len();
        let mut i: usize = 0;
        while i < n
            invariant
                n == self.configs.keys().len(),
                i <= n,
                !self.faults.rows,
                !self.enabled(context@),
                wire@ == wire_seq(context@),
                scope@ == scope_part(context@),
                forall|j: int| 0 <= j < i ==> !self.turns_on(context@, j),
            decreases n - i,
        {
            match self.spell(context, wire.as_str(), scope.as_str(), i) {
                Some(c) => {
                    if self.lookup(c.as_str()) == Some(true) {
                        proof {
                            assert(self.turns_on(context@, i as int));
                            assert(self.first_on(context@, i as int));
                            let k = choose|k: int| self.first_on(context@, k);
                            if k < i {
                                assert(!self.turns_on(context@, k));
                            } else if i < k {
                                assert(!self.turns_on(context@, i as int));
                            }
                        }
                        return Ok(Some(c));
                    }
                },
                None => {},
            }
            i = i + 1;
        }
        Ok(None)
    }

    /// The last known handle of a nick on a network; a failed read is an error.
    pub fn last_handle_for_nick(&self, nick: &str, network: &str) -> (r: Result<
        Option<String>,
        ReadFault,
    >)
        ensures
            match r {
                Ok(h) => !self.faults.handles && opt_text(h) == self.handle(nick@, network@),
                Err(_) => self.faults.handles,
            },
    {
        if self.faults.handles {
            return Err(ReadFault);
        }
        let name = lower(nick);
        let key = scoped_context(network, name.as_str());
        match self.handles.get(key.as_str()) {
            Some(h) => Ok(Some(h.clone())),
            None => match self.peers.get(name.as_str()) {
                Some(h) => Ok(Some(h.clone())),
                None => Ok(None),
            },
        }
    }
}

} // verus!
