//! Collections keyed by text.
use vstd::prelude::*;

use crate::text::same;

verus! {

/// A map keyed by text that remembers the order in which its keys were first inserted.
pub struct StrMap<V> {
    names: Vec<String>,
    values: Vec<V>,
}

impl<V> StrMap<V> {
    /// The keys, oldest first.
    pub closed spec fn keys(&self) -> Seq<Seq<char>> {
        self.names@.map_values(|e: String| e@)
    }

    pub closed spec fn view(&self) -> Map<Seq<char>, V> {
        Map::new(
            |k: Seq<char>| self.keys().contains(k),
            |k: Seq<char>| self.values@[self.keys().index_of(k)],
        )
    }

    /// Every key occurs once, and the keys in order are those of the map.
    pub open spec fn ordered(&self) -> bool {
        &&& self.keys().no_duplicates()
        &&& forall|k: Seq<char>| #[trigger] self@.contains_key(k) <==> self.keys().contains(k)
        &&& forall|i: int| 0 <= i < self.keys().len() ==> self@.contains_key(#[trigger] self.keys()[i])
    }

    #[verifier::type_invariant]
    spec fn aligned(&self) -> bool {
        self.keys().no_duplicates() && self.names@.len() == self.values@.len()
    }

    /// An empty map.
    pub fn new() -> (r: Self)
        ensures
            r@ == Map::<Seq<char>, V>::empty(),
            r.keys() == Seq::<Seq<char>>::empty(),
    {
        let r = StrMap { names: Vec::new(), values: Vec::new() };
        assert(r@ =~= Map::<Seq<char>, V>::empty());
        r
    }

    /// The number of entries.
    pub fn len(&self) -> (r: usize)
        ensures
            r == self.keys().len(),
            self.ordered(),
    {
        proof {
            use_type_invariant(&*self);
        }
        self.names.len()
    }

    fn find(&self, key: &str) -> (r: Option<usize>)
        ensures
            match r {
                Some(i) => i < self.keys().len() && self.keys()[i as int] == key@ && self@.contains_key(key@)
                    && self@[key@] == self.values@[i as int] && self.keys().index_of(key@) == i,
                None => !self@.contains_key(key@) && !self.keys().contains(key@),
            },
            self.aligned(),
    {
        proof {
            use_type_invariant(&*self);
        }
        let mut i: usize = 0;
        while i < self.names.len()
            invariant
                i <= self.names@.len(),
                forall|j: int| 0 <= j < i ==> self.keys()[j] != key@,
                self.aligned(),
            decreases self.names@.len() - i,
        {
            if same(self.names[i].as_str(), key) {
                assert(self.keys()[i as int] == key@);
                assert(self.keys().contains(key@));
                return Some(i);
            }
            i = i + 1;
        }
        None
    }

    /// Whether `key` has an entry.
    pub fn contains(&self, key: &str) -> (r: bool)
        ensures
            r == self@.contains_key(key@),
    {
        self.find(key).is_some()
    }

    /// The value of `key`.
    pub fn get(&self, key: &str) -> (r: Option<&V>)
        ensures
            match r {
                Some(v) => self@.contains_key(key@) && *v == self@[key@],
                None => !self@.contains_key(key@),
            },
    {
        match self.find(key) {
            Some(i) => Some(&self.values[i]),
            None => None,
        }
    }

    /// A mutable borrow of the value of `key`.
    pub fn get_mut(&mut self, key: &str) -> (r: Option<&mut V>)
        ensures
            match r {
                Some(v) => old(self)@.contains_key(key@) && *v == old(self)@[key@] && final(self)@
                    == old(self)@.insert(key@, *final(v)) && final(self).keys() == old(self).keys(),
                None => !old(self)@.contains_key(key@) && *final(self) == *old(self),
            },
    {
        match self.find(key) {
            None => None,
            Some(i) => {
                let r = &mut self.values[i];
                Some(r)
            },
        }
    }

    /// Sets the value of `key`; a new key goes last.
    pub fn insert(&mut self, key: String, value: V)
        ensures
            final(self)@ == old(self)@.insert(key@, value),
            final(self).keys() == (if old(self)@.contains_key(key@) {
                old(self).keys()
            } else {
                old(self).keys().push(key@)
            }),
            final(self).keys() == with_key(old(self).keys(), key@),
    {
        let found = self.find(key.as_str());
        let ghost before = *self;
        let mut taken: StrMap<V> = StrMap::new();
        std::mem::swap(self, &mut taken);
        let StrMap { mut names, mut values } = taken;
        match found {
            Some(i) => {
                values.set(i, value);
                *self = StrMap { names, values };
                assert(self.keys() =~= before.keys());
                assert(self@ =~= before@.insert(key@, value)) by {
                    assert(self@.dom() =~= before@.dom().insert(key@));
                    assert forall|k: Seq<char>| self@.dom().contains(k) implies self@[k] == before@.insert(
                        key@,
                        value,
                    )[k] by {
                        if k != key@ {
                            assert(before.keys().index_of(k) != i);
                        }
                    }
                }
            },
            None => {
                let ghost k0 = key@;
                names.push(key);
                values.push(value);
                proof {
                    let ks = names@.map_values(|e: String| e@);
                    assert(ks =~= before.keys().push(k0));
                    assert forall|i: int, j: int| 0 <= i < ks.len() && 0 <= j < ks.len() && i != j implies ks[i]
                        != ks[j] by {
                        if i < before.keys().len() && j < before.keys().len() {
                            assert(before.keys()[i] != before.keys()[j]);
                        } else if i < before.keys().len() {
                            assert(before.keys().contains(before.keys()[i]));
                        } else {
                            assert(before.keys().contains(before.keys()[j]));
                        }
                    }
                }
                *self = StrMap { names, values };
                assert(self.keys() =~= before.keys().push(k0));
                assert(self@ =~= before@.insert(k0, value)) by {
                    assert(self.keys()[self.keys().len() - 1] == k0);
                    assert(self.keys().contains(k0));
                    assert forall|k: Seq<char>| #[trigger] self@.contains_key(k) <==> before@.insert(
                        k0,
                        value,
                    ).contains_key(k) by {
                        if before.keys().contains(k) {
                            let i = before.keys().index_of(k);
                            assert(self.keys()[i] == k);
                        }
                    }
                    assert forall|k: Seq<char>| self@.dom().contains(k) implies self@[k] == before@.insert(
                        k0,
                        value,
                    )[k] by {
                        let i = self.keys().index_of(k);
                        if k != k0 {
                            assert(before.keys()[i] == k);
                            assert(before.keys().index_of(k) == i);
                        } else {
                            assert(i == self.keys().len() - 1);
                        }
                    }
                }
            },
        }
    }

    /// Takes the entry of `key` out, leaving the others in order.
    pub fn remove(&mut self, key: &str) -> (r: Option<V>)
        ensures
            final(self)@ == old(self)@.remove(key@),
            match r {
                Some(v) => old(self)@.contains_key(key@) && v == old(self)@[key@] && final(self).keys()
                    == old(self).keys().remove(old(self).keys().index_of(key@)),
                None => !old(self)@.contains_key(key@) && final(self).keys() == old(self).keys(),
            },
            final(self).keys() == without_key(old(self).keys(), key@),
    {
        let ghost before = *self;
        match self.find(key) {
            None => {
                assert(self@ =~= before@.remove(key@));
                None
            },
            Some(i) => {
                let mut taken: StrMap<V> = StrMap::new();
                std::mem::swap(self, &mut taken);
                let StrMap { mut names, mut values } = taken;
                let _name = names.remove(i);
                let value = values.remove(i);
                proof {
                    let ks = names@.map_values(|e: String| e@);
                    assert(ks =~= before.keys().remove(i as int));
                    assert forall|a: int, b: int| 0 <= a < ks.len() && 0 <= b < ks.len() && a != b implies ks[a]
                        != ks[b] by {
                        let a2 = if a < i { a } else { a + 1 };
                        let b2 = if b < i { b } else { b + 1 };
                        assert(before.keys()[a2] != before.keys()[b2]);
                    }
                }
                *self = StrMap { names, values };
                assert(self.keys() =~= before.keys().remove(i as int));
                assert(self@ =~= before@.remove(key@)) by {
                    assert forall|k: Seq<char>| #[trigger] self@.contains_key(k) <==> before@.remove(
                        key@,
                    ).contains_key(k) by {
                        if self.keys().contains(k) {
                            let a = self.keys().index_of(k);
                            let a2 = if a < i { a } else { a + 1 };
                            assert(before.keys()[a2] == k);
                        }
                        if before.keys().contains(k) && k != key@ {
                            let a = before.keys().index_of(k);
                            let a2 = if a < i { a } else { a - 1 };
                            assert(self.keys()[a2] == k);
                        }
                    }
                    assert forall|k: Seq<char>| self@.dom().contains(k) implies self@[k] == before@[k] by {
                        let a = self.keys().index_of(k);
                        let a2 = if a < i { a } else { a + 1 };
                        assert(before.keys()[a2] == k);
                        assert(before.keys().index_of(k) == a2);
                    }
                }
                Some(value)
            },
        }
    }

    /// Keeps the entries whose flag is set, in order.
    pub fn retain(&mut self, keep: &Vec<bool>)
        requires
            keep@.len() == old(self).keys().len(),
        ensures
            final(self).keys() == selected(old(self).keys(), keep@),
            forall|k: Seq<char>| #[trigger]
                final(self)@.contains_key(k) <==> old(self)@.contains_key(k)
                    && keep@[old(self).keys().index_of(k)],
            forall|k: Seq<char>| #[trigger]
                final(self)@.contains_key(k) ==> final(self)@[k] == old(self)@[k],
    {
        proof {
            use_type_invariant(&*self);
        }
        let ghost before = *self;
        let ghost keys = self.keys();
        let ghost vals = self.values@;
        let mut taken: StrMap<V> = StrMap::new();
        std::mem::swap(self, &mut taken);
        let StrMap { mut names, mut values } = taken;
        let ghost all_names = names@;
        let mut new_names: Vec<String> = Vec::new();
        let mut new_values: Vec<V> = Vec::new();
        let mut i: usize = 0;
        let n: usize = names.len();
        assert(keys.take(0) =~= Seq::<Seq<char>>::empty());
        assert(keep@.take(0) =~= Seq::<bool>::empty());
        assert(vals.take(0) =~= Seq::<V>::empty());
        while i < n
            invariant
                i <= n,
                n == keys.len(),
                n == vals.len(),
                n == keep@.len(),
                all_names.len() == n,
                forall|j: int| 0 <= j < n ==> keys[j] == (#[trigger] all_names[j])@,
                names@ == all_names.skip(i as int),
                values@ == vals.skip(i as int),
                new_names@.map_values(|e: String| e@) =~= selected(keys.take(i as int), keep@.take(i as int)),
                new_values@ =~= selected(vals.take(i as int), keep@.take(i as int)),
            decreases n - i,
        {
            let name = names.remove(0);
            let value = values.remove(0);
            proof {
                assert(names@ =~= all_names.skip(i + 1));
                assert(values@ =~= vals.skip(i + 1));
                assert(keys.take(i + 1).drop_last() =~= keys.take(i as int));
                assert(keep@.take(i + 1).drop_last() =~= keep@.take(i as int));
                assert(vals.take(i + 1).drop_last() =~= vals.take(i as int));
            }
            if keep[i] {
                let ghost was = new_names@.map_values(|e: String| e@);
                let ghost nm = name@;
                new_names.push(name);
                new_values.push(value);
                assert(new_names@.map_values(|e: String| e@) =~= was.push(nm));
            }
            i = i + 1;
        }
        proof {
            assert(keys.take(n as int) =~= keys);
            assert(keep@.take(n as int) =~= keep@);
            assert(vals.take(n as int) =~= vals);
            lemma_selected(keys, vals, keep@);
        }
        *self = StrMap { names: new_names, values: new_values };
        proof {
            assert(self.keys() =~= selected(keys, keep@));
            assert forall|k: Seq<char>| #[trigger] self@.contains_key(k) <==> before@.contains_key(k)
                && keep@[before.keys().index_of(k)] by {
                if before.keys().contains(k) {
                    let a = before.keys().index_of(k);
                    assert(keys[a] == k);
                }
                if self.keys().contains(k) {
                    let a = self.keys().index_of(k);
                    assert(selected(keys, keep@)[a] == k);
                    let b = choose|b: int|
                        selected_pair(
                            keys,
                            vals,
                            keep@,
                            selected(keys, keep@)[a],
                            selected(vals, keep@)[a],
                            b,
                        );
                    assert(keys[b] == k);
                    assert(before.keys().index_of(k) == b);
                }
            }
            assert forall|k: Seq<char>| #[trigger] self@.contains_key(k) implies self@[k] == before@[k] by {
                let a = self.keys().index_of(k);
                let b = choose|b: int|
                    selected_pair(
                        keys,
                        vals,
                        keep@,
                        selected(keys, keep@)[a],
                        selected(vals, keep@)[a],
                        b,
                    );
                assert(keys[b] == k);
                assert(before.keys().index_of(k) == b);
            }
        }
    }

    /// The key at a position.
    pub fn key_at(&self, i: usize) -> (r: &String)
        requires
            i < self.keys().len(),
        ensures
            r@ == self.keys()[i as int],
            self@.contains_key(r@),
    {
        assert(self.keys().contains(self.keys()[i as int]));
        &self.names[i]
    }

    /// The value at a position.
    pub fn value_at(&self, i: usize) -> (r: &V)
        requires
            i < self.keys().len(),
        ensures
            self@.contains_key(self.keys()[i as int]),
            *r == self@[self.keys()[i as int]],
    {
        proof {
            use_type_invariant(&*self);
            assert(self.keys().contains(self.keys()[i as int]));
            assert(self.keys().index_of(self.keys()[i as int]) == i);
        }
        &self.values[i]
    }
}

/// Keys with one more, which goes last unless it is there.
pub open spec fn with_key(keys: Seq<Seq<char>>, k: Seq<char>) -> Seq<Seq<char>> {
    if keys.contains(k) {
        keys
    } else {
        keys.push(k)
    }
}

/// Keys without one of them.
pub open spec fn without_key(keys: Seq<Seq<char>>, k: Seq<char>) -> Seq<Seq<char>> {
    if keys.contains(k) {
        keys.remove(keys.index_of(k))
    } else {
        keys
    }
}

/// The entries of `s` whose flag is set, in order.
pub open spec fn selected<T>(s: Seq<T>, flags: Seq<bool>) -> Seq<T>
    decreases s.len(),
{
    if s.len() == 0 {
        s
    } else {
        let init = selected(s.drop_last(), flags.drop_last());
        if flags.last() {
            init.push(s.last())
        } else {
            init
        }
    }
}

/// The selected pair at a position of two aligned lists.
pub open spec fn selected_pair<S, T>(s: Seq<S>, t: Seq<T>, flags: Seq<bool>, x: S, y: T, b: int) -> bool {
    0 <= b < s.len() && flags[b] && s[b] == x && t[b] == y
}

/// A pair comes from a selected position of two aligned lists.
pub open spec fn from_selected<S, T>(s: Seq<S>, t: Seq<T>, flags: Seq<bool>, x: S, y: T) -> bool {
    exists|b: int| selected_pair(s, t, flags, x, y, b)
}

/// A selection holds exactly what is selected, two lists selected by the same flags stay aligned,
/// and nothing repeats that did not repeat.
pub proof fn lemma_selected<S, T>(s: Seq<S>, t: Seq<T>, flags: Seq<bool>)
    requires
        s.len() == flags.len(),
        t.len() == flags.len(),
    ensures
        selected(s, flags).len() == selected(t, flags).len(),
        forall|i: int| 0 <= i < s.len() && flags[i] ==> selected(s, flags).contains(#[trigger] s[i]),
        forall|a: int|
            #![trigger selected(s, flags)[a]]
            0 <= a < selected(s, flags).len() ==> from_selected(
                s,
                t,
                flags,
                selected(s, flags)[a],
                selected(t, flags)[a],
            ),
        s.no_duplicates() ==> selected(s, flags).no_duplicates(),
    decreases s.len(),
{
    if s.len() > 0 {
        let s0 = s.drop_last();
        let t0 = t.drop_last();
        let f0 = flags.drop_last();
        lemma_selected(s0, t0, f0);
        let init = selected(s0, f0);
        let init_t = selected(t0, f0);
        let out = selected(s, flags);
        let out_t = selected(t, flags);
        assert forall|i: int| 0 <= i < s.len() && flags[i] implies out.contains(#[trigger] s[i]) by {
            if i < s0.len() {
                assert(f0[i]);
                assert(init.contains(s0[i]));
                let k = init.index_of(s0[i]);
                assert(init[k] == s0[i]);
                assert(out[k] == s[i]);
            } else {
                assert(out[out.len() - 1] == s[i]);
            }
        }
        assert forall|a: int| 0 <= a < out.len() implies from_selected(
            s,
            t,
            flags,
            #[trigger] out[a],
            out_t[a],
        ) by {
            if a < init.len() {
                assert(init[a] == out[a]);
                assert(from_selected(s0, t0, f0, init[a], init_t[a]));
                let b = choose|b: int| selected_pair(s0, t0, f0, init[a], init_t[a], b);
                assert(selected_pair(s, t, flags, out[a], out_t[a], b));
            } else {
                assert(selected_pair(s, t, flags, out[a], out_t[a], s.len() - 1));
            }
        }
        if s.no_duplicates() {
            assert(s0.no_duplicates());
            if flags.last() {
                assert forall|a: int, b: int| 0 <= a < out.len() && 0 <= b < out.len() && a != b implies out[a]
                    != out[b] by {
                    if a < init.len() && b < init.len() {
                        assert(init[a] != init[b]);
                    } else if a < init.len() {
                        assert(from_selected(s0, t0, f0, init[a], init_t[a]));
                        let c = choose|c: int| selected_pair(s0, t0, f0, init[a], init_t[a], c);
                        assert(init[a] == out[a]);
                        assert(s[c] != s[s.len() - 1]);
                    } else if b < init.len() {
                        assert(from_selected(s0, t0, f0, init[b], init_t[b]));
                        let c = choose|c: int| selected_pair(s0, t0, f0, init[b], init_t[b], c);
                        assert(init[b] == out[b]);
                        assert(s[c] != s[s.len() - 1]);
                    }
                }
            }
        }
    }
}

/// A set of texts.
pub struct StrSet {
    members: StrMap<bool>,
}

impl StrSet {
    pub closed spec fn view(&self) -> Set<Seq<char>> {
        self.members@.dom()
    }

    /// The empty set.
    pub fn new() -> (r: Self)
        ensures
            r@ == Set::<Seq<char>>::empty(),
    {
        let r = StrSet { members: StrMap::new() };
        assert(r@ =~= Set::<Seq<char>>::empty());
        r
    }

    /// Whether `name` is a member.
    pub fn contains(&self, name: &str) -> (r: bool)
        ensures
            r == self@.contains(name@),
    {
        self.members.contains(name)
    }

    /// Adds `name`, and tells whether it was new.
    pub fn insert(&mut self, name: String) -> (r: bool)
        ensures
            final(self)@ == old(self)@.insert(name@),
            r == !old(self)@.contains(name@),
    {
        let fresh = !self.members.contains(name.as_str());
        let ghost k = name@;
        self.members.insert(name, true);
        assert(self@ =~= old(self)@.insert(k));
        fresh
    }

    /// Removes `name`, and tells whether it was a member.
    pub fn remove(&mut self, name: &str) -> (r: bool)
        ensures
            final(self)@ == old(self)@.remove(name@),
            r == old(self)@.contains(name@),
    {
        let r = self.members.remove(name).is_some();
        assert(self@ =~= old(self)@.remove(name@));
        r
    }
}

} // verus!
