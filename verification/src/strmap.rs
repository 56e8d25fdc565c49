//! A map keyed by strings, kept as a list of pairs whose keys are distinct.
//! The list order is the order in which keys were first inserted, which
//! fixes the order in which the map is walked.

use vstd::prelude::*;
use crate::strings::str_equal;

verus! {

/// No key occurs twice in `s`.
pub open spec fn keys_distinct<V>(s: Seq<(String, V)>) -> bool {
    forall|i: int, j: int|
        0 <= i < s.len() && 0 <= j < s.len() && i != j ==> (#[trigger] s[i]).0@ != (#[trigger] s[j]).0@
}

/// The map that a list of pairs stands for; a later pair overrides an
/// earlier one with the same key.
pub open spec fn assoc_view<V>(s: Seq<(String, V)>) -> Map<Seq<char>, V>
    decreases s.len(),
{
    if s.len() == 0 {
        Map::empty()
    } else {
        assoc_view(s.drop_last()).insert(s.last().0@, s.last().1)
    }
}

/// A key is in the map exactly when some pair carries it.
pub proof fn lemma_assoc_view_domain<V>(s: Seq<(String, V)>, k: Seq<char>)
    ensures
        assoc_view(s).contains_key(k) <==> exists|i: int| 0 <= i < s.len() && (#[trigger] s[i]).0@ == k,
    decreases s.len(),
{
    if s.len() > 0 {
        lemma_assoc_view_domain(s.drop_last(), k);
        if assoc_view(s).contains_key(k) {
            if k != s.last().0@ {
                let i = choose|i: int| 0 <= i < s.drop_last().len() && (#[trigger] s.drop_last()[i]).0@ == k;
                assert(s[i].0@ == k);
            } else {
                assert(s[s.len() - 1].0@ == k);
            }
        }
        if exists|i: int| 0 <= i < s.len() && (#[trigger] s[i]).0@ == k {
            let i = choose|i: int| 0 <= i < s.len() && (#[trigger] s[i]).0@ == k;
            if i < s.len() - 1 {
                assert(s.drop_last()[i].0@ == k);
            }
        }
    }
}

/// With distinct keys, each pair gives the value of its key.
pub proof fn lemma_assoc_view_index<V>(s: Seq<(String, V)>, i: int)
    requires
        keys_distinct(s),
        0 <= i < s.len(),
    ensures
        assoc_view(s).contains_key(s[i].0@),
        assoc_view(s)[s[i].0@] == s[i].1,
    decreases s.len(),
{
    if i < s.len() - 1 {
        let t = s.drop_last();
        assert forall|a: int, b: int|
            0 <= a < t.len() && 0 <= b < t.len() && a != b implies (#[trigger] t[a]).0@ != (#[trigger] t[b]).0@ by {
            assert(t[a] == s[a] && t[b] == s[b]);
        }
        lemma_assoc_view_index(t, i);
        assert(s[i].0@ != s[s.len() - 1].0@);
    }
}

/// Appending a pair whose key is new inserts it.
pub proof fn lemma_assoc_view_push<V>(s: Seq<(String, V)>, k: String, v: V)
    ensures
        assoc_view(s.push((k, v))) == assoc_view(s).insert(k@, v),
{
    assert(s.push((k, v)).drop_last() =~= s);
}

/// Two lists with distinct keys that give every key the same value stand
/// for the same map.
pub proof fn lemma_assoc_view_ext<V>(s: Seq<(String, V)>, m: Map<Seq<char>, V>)
    requires
        keys_distinct(s),
        forall|k: Seq<char>| m.contains_key(k) <==> exists|i: int| 0 <= i < s.len() && (#[trigger] s[i]).0@ == k,
        forall|i: int| 0 <= i < s.len() ==> m[(#[trigger] s[i]).0@] == s[i].1,
    ensures
        assoc_view(s) == m,
{
    assert forall|k: Seq<char>| assoc_view(s).contains_key(k) <==> m.contains_key(k) by {
        lemma_assoc_view_domain(s, k);
    }
    assert forall|k: Seq<char>| #[trigger] m.contains_key(k) implies assoc_view(s)[k] == m[k] by {
        let i = choose|i: int| 0 <= i < s.len() && (#[trigger] s[i]).0@ == k;
        lemma_assoc_view_index(s, i);
    }
    assert(assoc_view(s) =~= m);
}

/// Replacing the value of the pair at `i` updates its key.
pub proof fn lemma_assoc_view_update<V>(s: Seq<(String, V)>, i: int, v: V)
    requires
        keys_distinct(s),
        0 <= i < s.len(),
    ensures
        keys_distinct(s.update(i, (s[i].0, v))),
        assoc_view(s.update(i, (s[i].0, v))) == assoc_view(s).insert(s[i].0@, v),
{
    let t = s.update(i, (s[i].0, v));
    let m = assoc_view(s).insert(s[i].0@, v);
    assert forall|a: int, b: int|
        0 <= a < t.len() && 0 <= b < t.len() && a != b implies (#[trigger] t[a]).0@ != (#[trigger] t[b]).0@ by {
        assert(t[a].0 == s[a].0 && t[b].0 == s[b].0);
    }
    assert forall|k: Seq<char>| m.contains_key(k) <==> exists|j: int| 0 <= j < t.len() && (#[trigger] t[j]).0@ == k by {
        lemma_assoc_view_domain(s, k);
        if m.contains_key(k) && k != s[i].0@ {
            let j = choose|j: int| 0 <= j < s.len() && (#[trigger] s[j]).0@ == k;
            assert(t[j].0@ == k);
        }
        if m.contains_key(k) && k == s[i].0@ {
            assert(t[i].0@ == k);
        }
        if exists|j: int| 0 <= j < t.len() && (#[trigger] t[j]).0@ == k {
            let j = choose|j: int| 0 <= j < t.len() && (#[trigger] t[j]).0@ == k;
            assert(s[j].0@ == k);
        }
    }
    assert forall|j: int| 0 <= j < t.len() implies m[(#[trigger] t[j]).0@] == t[j].1 by {
        if j != i {
            lemma_assoc_view_index(s, j);
        }
    }
    lemma_assoc_view_ext(t, m);
}

/// Dropping the pair at `i` removes its key.
pub proof fn lemma_assoc_view_remove<V>(s: Seq<(String, V)>, i: int)
    requires
        keys_distinct(s),
        0 <= i < s.len(),
    ensures
        keys_distinct(s.remove(i)),
        assoc_view(s.remove(i)) == assoc_view(s).remove(s[i].0@),
{
    let t = s.remove(i);
    let m = assoc_view(s).remove(s[i].0@);
    assert forall|a: int, b: int|
        0 <= a < t.len() && 0 <= b < t.len() && a != b implies (#[trigger] t[a]).0@ != (#[trigger] t[b]).0@ by {
        let a2 = if a < i { a } else { a + 1 };
        let b2 = if b < i { b } else { b + 1 };
        assert(t[a] == s[a2] && t[b] == s[b2]);
    }
    assert forall|k: Seq<char>| m.contains_key(k) <==> exists|j: int| 0 <= j < t.len() && (#[trigger] t[j]).0@ == k by {
        lemma_assoc_view_domain(s, k);
        if m.contains_key(k) {
            let j = choose|j: int| 0 <= j < s.len() && (#[trigger] s[j]).0@ == k;
            assert(j != i);
            if j < i {
                assert(t[j].0@ == k);
            } else {
                assert(t[j - 1].0@ == k);
            }
        }
        if exists|j: int| 0 <= j < t.len() && (#[trigger] t[j]).0@ == k {
            let j = choose|j: int| 0 <= j < t.len() && (#[trigger] t[j]).0@ == k;
            let j2 = if j < i { j } else { j + 1 };
            assert(s[j2].0@ == k);
            assert(j2 != i);
        }
    }
    assert forall|j: int| 0 <= j < t.len() implies m[(#[trigger] t[j]).0@] == t[j].1 by {
        let j2 = if j < i { j } else { j + 1 };
        assert(t[j] == s[j2]);
        lemma_assoc_view_index(s, j2);
        assert(j2 != i);
    }
    lemma_assoc_view_ext(t, m);
}

/// A map from strings to values.  Its pairs keep the order in which their
/// keys were first inserted, and no key occurs twice.
pub struct StrMap<V> {
    entries: Vec<(String, V)>,
}

impl<V> View for StrMap<V> {
    type V = Map<Seq<char>, V>;

    open spec fn view(&self) -> Map<Seq<char>, V> {
        assoc_view(self.pairs())
    }
}

impl<V> StrMap<V> {
    #[verifier::type_invariant]
    spec fn keys_are_distinct(self) -> bool {
        keys_distinct(self.entries@)
    }

    /// The pairs of the map, in insertion order.
    pub closed spec fn pairs(self) -> Seq<(String, V)> {
        self.entries@
    }

    /// An empty map.
    pub fn new() -> (r: Self)
        ensures
            r.pairs() == Seq::<(String, V)>::empty(),
            r@ == Map::<Seq<char>, V>::empty(),
    {
        StrMap { entries: Vec::new() }
    }

    /// The number of pairs; also tells the caller that the keys are distinct.
    pub fn len(&self) -> (r: usize)
        ensures
            r == self.pairs().len(),
            keys_distinct(self.pairs()),
    {
        proof {
            use_type_invariant(self);
        }
        self.entries.len()
    }

    /// The key of the pair at `i`.
    pub fn key_at(&self, i: usize) -> (r: &String)
        requires
            i < self.pairs().len(),
        ensures
            *r == self.pairs()[i as int].0,
    {
        &self.entries[i].0
    }

    /// The value of the pair at `i`.
    pub fn value_at(&self, i: usize) -> (r: &V)
        requires
            i < self.pairs().len(),
        ensures
            *r == self.pairs()[i as int].1,
    {
        &self.entries[i].1
    }

    /// The position of the pair whose key is `key`, if there is one.
    pub fn find(&self, key: &str) -> (r: Option<usize>)
        ensures
            keys_distinct(self.pairs()),
            match r {
                Some(i) => i < self.pairs().len() && self.pairs()[i as int].0@ == key@
                    && self@.contains_key(key@) && self@[key@] == self.pairs()[i as int].1,
                None => !self@.contains_key(key@)
                    && forall|j: int| 0 <= j < self.pairs().len() ==> (#[trigger] self.pairs()[j]).0@ != key@,
            },
    {
        proof {
            use_type_invariant(self);
        }
        let n = self.entries.len();
        let mut i: usize = 0;
        while i < n
            invariant
                i <= n,
                n == self.entries@.len(),
                keys_distinct(self.entries@),
                forall|j: int| 0 <= j < i ==> (#[trigger] self.entries@[j]).0@ != key@,
            decreases n - i,
        {
            if str_equal(self.entries[i].0.as_str(), key) {
                proof {
                    lemma_assoc_view_index(self.entries@, i as int);
                }
                return Some(i);
            }
            i = i + 1;
        }
        proof {
            lemma_assoc_view_domain(self.entries@, key@);
        }
        None
    }

    /// The value stored under `key`.
    pub fn get(&self, key: &str) -> (r: Option<&V>)
        ensures
            match r {
                Some(v) => self@.contains_key(key@) && *v == self@[key@],
                None => !self@.contains_key(key@),
            },
    {
        match self.find(key) {
            Some(i) => Some(&self.entries[i].1),
            None => None,
        }
    }

    /// Whether `key` has a value.
    pub fn contains_key(&self, key: &str) -> (r: bool)
        ensures
            r == self@.contains_key(key@),
    {
        self.find(key).is_some()
    }

    /// Stores `value` under `key`.  A key that was present keeps its place
    /// among the pairs; a new key is put last.
    pub fn insert(&mut self, key: String, value: V)
        ensures
            final(self)@ == old(self)@.insert(key@, value),
            old(self)@.contains_key(key@) ==> exists|i: int|
                0 <= i < old(self).pairs().len() && (#[trigger] old(self).pairs()[i]).0@ == key@
                && final(self).pairs() == old(self).pairs().update(i, (old(self).pairs()[i].0, value)),
            !old(self)@.contains_key(key@) ==> final(self).pairs() == old(self).pairs().push((key, value)),
    {
        proof {
            use_type_invariant(&*self);
        }
        match self.find(key.as_str()) {
            Some(i) => {
                let ghost old_entries = self.entries@;
                let k = self.entries[i].0.clone();
                proof {
                    lemma_assoc_view_update(old_entries, i as int, value);
                }
                let mut entries: Vec<(String, V)> = Vec::new();
                std::mem::swap(&mut entries, &mut self.entries);
                entries.set(i, (k, value));
                assert(entries@ == old_entries.update(i as int, (old_entries[i as int].0, value)));
                self.entries = entries;
            },
            None => {
                let ghost old_entries = self.entries@;
                proof {
                    lemma_assoc_view_push(old_entries, key, value);
                    assert forall|a: int, b: int|
                        0 <= a < old_entries.push((key, value)).len() && 0 <= b < old_entries.push((key, value)).len() && a != b
                        implies (#[trigger] old_entries.push((key, value))[a]).0@ != (#[trigger] old_entries.push((key, value))[b]).0@ by {
                    }
                }
                let mut entries: Vec<(String, V)> = Vec::new();
                std::mem::swap(&mut entries, &mut self.entries);
                entries.push((key, value));
                self.entries = entries;
            },
        }
    }

    /// Removes the value stored under `key` and hands it back.
    pub fn remove(&mut self, key: &str) -> (r: Option<V>)
        ensures
            final(self)@ == old(self)@.remove(key@),
            r == (if old(self)@.contains_key(key@) { Some(old(self)@[key@]) } else { None::<V> }),
            old(self)@.contains_key(key@) ==> exists|i: int|
                0 <= i < old(self).pairs().len() && (#[trigger] old(self).pairs()[i]).0@ == key@
                && final(self).pairs() == old(self).pairs().remove(i),
            !old(self)@.contains_key(key@) ==> final(self).pairs() == old(self).pairs(),
    {
        proof {
            use_type_invariant(&*self);
        }
        match self.find(key) {
            Some(i) => {
                let ghost old_entries = self.entries@;
                proof {
                    lemma_assoc_view_remove(old_entries, i as int);
                }
                let mut entries: Vec<(String, V)> = Vec::new();
                std::mem::swap(&mut entries, &mut self.entries);
                let (_, v) = entries.remove(i);
                self.entries = entries;
                Some(v)
            },
            None => {
                assert(old(self)@.remove(key@) =~= old(self)@);
                None
            },
        }
    }
}

impl StrMap<usize> {
    /// A copy of a map of positions.
    pub fn duplicate(&self) -> (r: Self)
        ensures
            r@ == self@,
            r.pairs() == self.pairs(),
    {
        proof {
            use_type_invariant(self);
        }
        let n = self.entries.len();
        let mut entries: Vec<(String, usize)> = Vec::new();
        let mut i: usize = 0;
        while i < n
            invariant
                i <= n,
                n == self.entries@.len(),
                entries@ == self.entries@.subrange(0, i as int),
            decreases n - i,
        {
            let k = self.entries[i].0.clone();
            let v = self.entries[i].1;
            entries.push((k, v));
            assert(entries@ =~= self.entries@.subrange(0, i + 1));
            i = i + 1;
        }
        assert(entries@ =~= self.entries@);
        StrMap { entries }
    }
}

} // verus!

verus! {

/// The values that a map of strings holds.
pub open spec fn values_of(m: Map<Seq<char>, String>) -> Set<Seq<char>> {
    Set::new(|t: Seq<char>| exists|k: Seq<char>| #[trigger] m.contains_key(k) && m[k]@ == t)
}

impl StrMap<String> {
    /// Whether some key maps to `value`.
    pub fn has_value(&self, value: &str) -> (r: bool)
        ensures
            r == values_of(self@).contains(value@),
    {
        let n = self.len();
        let ghost pairs = self.pairs();
        let mut i: usize = 0;
        while i < n
            invariant
                i <= n,
                n == pairs.len(),
                pairs == self.pairs(),
                keys_distinct(pairs),
                forall|j: int| 0 <= j < i ==> (#[trigger] pairs[j]).1@ != value@,
            decreases n - i,
        {
            if str_equal(self.value_at(i).as_str(), value) {
                proof {
                    lemma_assoc_view_index(pairs, i as int);
                    assert(self@.contains_key(pairs[i as int].0@));
                }
                return true;
            }
            i = i + 1;
        }
        proof {
            if values_of(self@).contains(value@) {
                let k = choose|k: Seq<char>| #[trigger] self@.contains_key(k) && self@[k]@ == value@;
                lemma_assoc_view_domain(pairs, k);
                let j = choose|j: int| 0 <= j < pairs.len() && (#[trigger] pairs[j]).0@ == k;
                lemma_assoc_view_index(pairs, j);
            }
        }
        false
    }
}

} // verus!
