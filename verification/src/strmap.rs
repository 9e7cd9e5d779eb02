use vstd::prelude::*;

use crate::text::str_eq;

verus! {

/// No key occurs twice among the entries.
pub open spec fn keys_distinct<V>(s: Seq<(String, V)>) -> bool {
    forall|i: int, j: int|
        0 <= i < s.len() && 0 <= j < s.len() && i != j ==> #[trigger] s[i].0@ != #[trigger] s[j].0@
}

/// Whether some entry has key `k`.
pub open spec fn has_key<V>(s: Seq<(String, V)>, k: Seq<char>) -> bool {
    exists|i: int| 0 <= i < s.len() && #[trigger] s[i].0@ == k
}

/// The position of the entry with key `k` (where there is one).
pub open spec fn key_pos<V>(s: Seq<(String, V)>, k: Seq<char>) -> int {
    choose|i: int| 0 <= i < s.len() && #[trigger] s[i].0@ == k
}

/// The map that entries with distinct keys describe.
pub open spec fn entries_map<V: DeepView>(s: Seq<(String, V)>) -> Map<Seq<char>, V::V> {
    Map::new(|k: Seq<char>| has_key(s, k), |k: Seq<char>| s[key_pos(s, k)].1.deep_view())
}

/// A map keyed by strings, held as a list of entries with distinct keys in
/// the order the keys were first inserted.
pub struct StrMap<V> {
    entries: Vec<(String, V)>,
}

impl<V> StrMap<V> {
    #[verifier::type_invariant]
    spec fn inv(self) -> bool {
        keys_distinct(self.entries@)
    }

    /// The entries, in insertion order.
    pub closed spec fn entry_seq(&self) -> Seq<(String, V)> {
        self.entries@
    }
}

impl<V: DeepView> View for StrMap<V> {
    type V = Map<Seq<char>, V::V>;

    open spec fn view(&self) -> Map<Seq<char>, V::V> {
        entries_map(self.entry_seq())
    }
}

pub proof fn lemma_entries_map<V: DeepView>(s: Seq<(String, V)>, i: int)
    requires
        keys_distinct(s),
        0 <= i < s.len(),
    ensures
        entries_map(s).dom().contains(s[i].0@),
        key_pos(s, s[i].0@) == i,
        entries_map(s)[s[i].0@] == s[i].1.deep_view(),
{
    assert(has_key(s, s[i].0@));
    let j = key_pos(s, s[i].0@);
    assert(s[j].0@ == s[i].0@);
}

impl<V: DeepView> StrMap<V> {
    /// An empty map.
    pub fn new() -> (m: Self)
        ensures
            m@ == Map::<Seq<char>, V::V>::empty(),
            m.entry_seq() == Seq::<(String, V)>::empty(),
    {
        let m = StrMap { entries: Vec::new() };
        assert(m@ =~= Map::<Seq<char>, V::V>::empty());
        m
    }

    /// The number of entries.
    pub fn len(&self) -> (n: usize)
        ensures
            n == self.entry_seq().len(),
    {
        self.entries.len()
    }

    /// Whether the map has no key.
    pub fn is_empty(&self) -> (r: bool)
        ensures
            r <==> self@.dom() == Set::<Seq<char>>::empty(),
    {
        proof {
            use_type_invariant(self);
        }
        if self.entries.len() == 0 {
            assert(self@.dom() =~= Set::<Seq<char>>::empty());
            true
        } else {
            proof {
                lemma_entries_map(self.entries@, 0);
            }
            false
        }
    }

    /// The position of the entry with key `k`, if there is one.
    fn find(&self, k: &str) -> (r: Option<usize>)
        ensures
            r matches Some(i) ==> i < self.entry_seq().len() && self.entry_seq()[i as int].0@ == k@,
            r is None ==> !has_key(self.entry_seq(), k@),
    {
        let mut i: usize = 0;
        while i < self.entries.len()
            invariant
                i <= self.entries.len(),
                forall|j: int| 0 <= j < i ==> #[trigger] self.entries@[j].0@ != k@,
            decreases self.entries.len() - i,
        {
            if str_eq(self.entries[i].0.as_str(), k) {
                return Some(i);
            }
            i = i + 1;
        }
        None
    }

    /// Whether `k` is a key.
    pub fn contains_key(&self, k: &str) -> (r: bool)
        ensures
            r == self@.dom().contains(k@),
    {
        match self.find(k) {
            Some(_) => true,
            None => false,
        }
    }

    /// The value of key `k`, if it is a key.
    pub fn get(&self, k: &str) -> (r: Option<&V>)
        ensures
            r matches Some(v) ==> self@.dom().contains(k@) && v.deep_view() == self@[k@],
            r is None ==> !self@.dom().contains(k@),
    {
        proof {
            use_type_invariant(self);
        }
        match self.find(k) {
            Some(i) => {
                proof {
                    lemma_entries_map(self.entries@, i as int);
                }
                Some(&self.entries[i].1)
            },
            None => None,
        }
    }

    /// Binds `k` to `v`; an existing key keeps its place among the entries,
    /// a new one is added at the end.
    pub fn insert(&mut self, k: String, v: V)
        ensures
            final(self)@ == old(self)@.insert(k@, v.deep_view()),
    {
        proof {
            use_type_invariant(&*self);
        }
        let ghost old_s = self.entries@;
        let ghost kv = k@;
        let ghost vv = v.deep_view();
        match self.find(k.as_str()) {
            Some(i) => {
                let ghost new_s = old_s.update(i as int, (k, v));
                assert(keys_distinct(new_s)) by {
                    assert forall|a: int, b: int|
                        0 <= a < new_s.len() && 0 <= b < new_s.len() && a != b implies #[trigger] new_s[a].0@
                        != #[trigger] new_s[b].0@ by {
                        assert(old_s[a].0@ != old_s[b].0@);
                    }
                }
                let mut es: Vec<(String, V)> = Vec::new();
                std::mem::swap(&mut es, &mut self.entries);
                es.set(i, (k, v));
                self.entries = es;
                proof {
                    assert(self.entries@ == new_s);
                    assert forall|key: Seq<char>| #[trigger] self@.dom().contains(key)
                        == old(self)@.insert(kv, vv).dom().contains(key) by {
                        if has_key(old_s, key) {
                            let j = key_pos(old_s, key);
                            if j == i {
                                assert(new_s[j].0@ == key);
                            } else {
                                assert(new_s[j] == old_s[j]);
                            }
                        }
                        if has_key(new_s, key) {
                            let j = key_pos(new_s, key);
                            if j != i {
                                assert(new_s[j] == old_s[j]);
                            }
                        }
                    }
                    assert forall|key: Seq<char>| #[trigger] self@.dom().contains(key) implies self@[key]
                        == old(self)@.insert(kv, vv)[key] by {
                        let j = key_pos(new_s, key);
                        lemma_entries_map(new_s, j);
                        if j != i {
                            assert(new_s[j] == old_s[j]);
                            lemma_entries_map(old_s, j);
                        }
                    }
                    assert(self@ =~= old(self)@.insert(kv, vv));
                }
            },
            None => {
                let ghost new_s = old_s.push((k, v));
                assert(keys_distinct(new_s)) by {
                    assert forall|a: int, b: int|
                        0 <= a < new_s.len() && 0 <= b < new_s.len() && a != b implies #[trigger] new_s[a].0@
                        != #[trigger] new_s[b].0@ by {
                        if a < old_s.len() && b < old_s.len() {
                            assert(old_s[a].0@ != old_s[b].0@);
                        } else if a < old_s.len() {
                            assert(old_s[a].0@ != kv);
                        } else {
                            assert(old_s[b].0@ != kv);
                        }
                    }
                }
                let mut es: Vec<(String, V)> = Vec::new();
                std::mem::swap(&mut es, &mut self.entries);
                es.push((k, v));
                self.entries = es;
                proof {
                    assert(self.entries@ == new_s);
                    lemma_entries_map(new_s, old_s.len() as int);
                    assert forall|key: Seq<char>| #[trigger] self@.dom().contains(key)
                        == old(self)@.insert(kv, vv).dom().contains(key) by {
                        if has_key(old_s, key) {
                            let j = key_pos(old_s, key);
                            assert(new_s[j] == old_s[j]);
                        }
                        if has_key(new_s, key) {
                            let j = key_pos(new_s, key);
                            if j < old_s.len() {
                                assert(new_s[j] == old_s[j]);
                            }
                        }
                    }
                    assert forall|key: Seq<char>| #[trigger] self@.dom().contains(key) implies self@[key]
                        == old(self)@.insert(kv, vv)[key] by {
                        let j = key_pos(new_s, key);
                        lemma_entries_map(new_s, j);
                        if j < old_s.len() {
                            assert(new_s[j] == old_s[j]);
                            lemma_entries_map(old_s, j);
                        }
                    }
                    assert(self@ =~= old(self)@.insert(kv, vv));
                }
            },
        }
    }

    /// Removes key `k` and returns its value, if it was a key.
    pub fn remove(&mut self, k: &str) -> (r: Option<V>)
        ensures
            final(self)@ == old(self)@.remove(k@),
            r matches Some(v) ==> old(self)@.dom().contains(k@) && v.deep_view() == old(self)@[k@],
            r is None ==> !old(self)@.dom().contains(k@),
    {
        proof {
            use_type_invariant(&*self);
        }
        let ghost old_s = self.entries@;
        match self.find(k) {
            Some(i) => {
                proof {
                    lemma_entries_map(old_s, i as int);
                }
                let ghost new_s = old_s.remove(i as int);
                assert(keys_distinct(new_s)) by {
                    assert forall|a: int, b: int|
                        0 <= a < new_s.len() && 0 <= b < new_s.len() && a != b implies #[trigger] new_s[a].0@
                        != #[trigger] new_s[b].0@ by {
                        let a2 = if a < i { a } else { a + 1 };
                        let b2 = if b < i { b } else { b + 1 };
                        assert(new_s[a] == old_s[a2]);
                        assert(new_s[b] == old_s[b2]);
                        assert(old_s[a2].0@ != old_s[b2].0@);
                    }
                }
                let mut es: Vec<(String, V)> = Vec::new();
                std::mem::swap(&mut es, &mut self.entries);
                let (_, v) = es.remove(i);
                self.entries = es;
                proof {
                    assert(self.entries@ == new_s);
                    assert forall|key: Seq<char>| #[trigger] self@.dom().contains(key)
                        == old(self)@.remove(k@).dom().contains(key) by {
                        if has_key(old_s, key) && key != k@ {
                            let j = key_pos(old_s, key);
                            assert(j != i);
                            let j2 = if j < i { j } else { j - 1 };
                            assert(new_s[j2] == old_s[j]);
                        }
                        if has_key(new_s, key) {
                            let j = key_pos(new_s, key);
                            let j2 = if j < i { j } else { j + 1 };
                            assert(new_s[j] == old_s[j2]);
                            assert(old_s[i as int].0@ != old_s[j2].0@);
                        }
                    }
                    assert forall|key: Seq<char>| #[trigger] self@.dom().contains(key) implies self@[key]
                        == old(self)@.remove(k@)[key] by {
                        let j = key_pos(new_s, key);
                        lemma_entries_map(new_s, j);
                        let j2 = if j < i { j } else { j + 1 };
                        assert(new_s[j] == old_s[j2]);
                        lemma_entries_map(old_s, j2);
                    }
                    assert(self@ =~= old(self)@.remove(k@));
                }
                Some(v)
            },
            None => {
                assert(old(self)@.remove(k@) =~= old(self)@);
                None
            },
        }
    }

    /// The entries, in insertion order; no key occurs twice.
    pub fn entries(&self) -> (r: &Vec<(String, V)>)
        ensures
            r@ == self.entry_seq(),
            keys_distinct(r@),
    {
        proof {
            use_type_invariant(self);
        }
        &self.entries
    }
}

} // verus!
