//! A map from strings to values, kept as a list of entries in insertion order.
//!
//! The index keeps three such maps: terms to counts inside a document, terms
//! to document frequencies, and paths to documents. Keys are compared by their
//! characters; no key occurs twice in the list.

use vstd::prelude::*;

verus! {

/// Equality of string slices, as `str`'s `PartialEq` computes it: the two
/// slices hold the same characters.
pub assume_specification[ <str as PartialEq>::eq ](a: &str, b: &str) -> (r: bool)
    ensures
        r == (a@ == b@),
;

/// The elements among the first `i + 1` of `s` are those among the first `i`
/// and `s[i]`, which is new among them if nothing occurs twice in `s`.
pub proof fn lemma_take_next<A>(s: Seq<A>, i: int)
    requires
        0 <= i < s.len(),
    ensures
        s.take(i + 1) == s.take(i).push(s[i]),
        s.take(i + 1).to_set() == s.take(i).to_set().insert(s[i]),
        s.no_duplicates() ==> !s.take(i).to_set().contains(s[i]),
{
    assert(s.take(i + 1) =~= s.take(i).push(s[i]));
    s.take(i).lemma_push_to_set_commute(s[i]);
    if s.no_duplicates() && s.take(i).contains(s[i]) {
        let j = s.take(i).index_of(s[i]);
        assert(s[j] == s[i]);
    }
}

/// The map that sends each of `keys` to the value at its place in `values`,
/// where no key occurs twice.
pub open spec fn map_from<V>(keys: Seq<Seq<char>>, values: Seq<V>) -> Map<Seq<char>, V> {
    Map::new(|k: Seq<char>| keys.contains(k), |k: Seq<char>| values[keys.index_of(k)])
}

/// The keys of a list of entries.
pub open spec fn keys_of<V>(entries: Seq<(String, V)>) -> Seq<Seq<char>> {
    entries.map_values(|e: (String, V)| e.0@)
}

/// The values of a list of entries.
pub open spec fn values_of<V>(entries: Seq<(String, V)>) -> Seq<V> {
    entries.map_values(|e: (String, V)| e.1)
}

/// The map that a list of entries without a repeated key stands for.
pub open spec fn map_of<V>(entries: Seq<(String, V)>) -> Map<Seq<char>, V> {
    map_from(keys_of(entries), values_of(entries))
}

/// How `map_from` relates to the two lists: the key at place `i` is sent to
/// the value at place `i`, and the map holds no other key.
pub proof fn lemma_map_from<V>(keys: Seq<Seq<char>>, values: Seq<V>)
    requires
        keys.no_duplicates(),
        keys.len() == values.len(),
    ensures
        forall|i: int|
            0 <= i < keys.len() ==> map_from(keys, values).contains_key(#[trigger] keys[i])
                && map_from(keys, values)[keys[i]] == values[i],
        forall|k: Seq<char>|
            #[trigger] map_from(keys, values).contains_key(k) <==> keys.contains(k),
{
    assert forall|i: int| 0 <= i < keys.len() implies map_from(keys, values).contains_key(
        #[trigger] keys[i],
    ) && map_from(keys, values)[keys[i]] == values[i] by {
        assert(keys.contains(keys[i]));
        let j = keys.index_of(keys[i]);
        assert(0 <= j < keys.len() && keys[j] == keys[i]);
    }
}

/// A map from strings to values of type `V`.
#[derive(Debug, Clone)]
pub struct StrMap<V> {
    entries: Vec<(String, V)>,
}

impl<V> View for StrMap<V> {
    type V = Map<Seq<char>, V>;

    closed spec fn view(&self) -> Map<Seq<char>, V> {
        map_from(self.keys(), self.values())
    }
}

impl<V> StrMap<V> {
    /// The keys, in the order in which they were first inserted.
    pub closed spec fn keys(&self) -> Seq<Seq<char>> {
        Seq::new(self.entries@.len(), |i: int| self.entries@[i].0@)
    }

    /// The values, each at the position of its key.
    pub closed spec fn values(&self) -> Seq<V> {
        Seq::new(self.entries@.len(), |i: int| self.entries@[i].1)
    }

    /// No key occurs twice.
    pub open spec fn wf(&self) -> bool {
        &&& self.keys().no_duplicates()
        &&& self.keys().len() == self.values().len()
    }

    /// How the map relates to the list: the entry at position `i` maps
    /// `keys()[i]` to `values()[i]`, and the map holds nothing else.
    pub proof fn lemma_view(&self)
        requires
            self.wf(),
        ensures
            forall|i: int|
                0 <= i < self.keys().len() ==> self@.contains_key(#[trigger] self.keys()[i])
                    && self@[self.keys()[i]] == self.values()[i],
            forall|k: Seq<char>| #[trigger] self@.contains_key(k) <==> self.keys().contains(k),
            self@.dom().finite(),
            self@.len() == self.keys().len(),
            self@.dom() == self.keys().to_set(),
            self.keys().len() <= usize::MAX,
            self@ == map_from(self.keys(), self.values()),
    {
        let keys = self.keys();
        assert(keys.len() == self.entries.len());
        lemma_map_from(keys, self.values());
        assert(self@.dom() =~= keys.to_set());
        keys.unique_seq_to_set();
        vstd::seq_lib::seq_to_set_is_finite(keys);
    }

    /// The map without entries.
    pub fn new() -> (m: Self)
        ensures
            m.wf(),
            m@ == Map::<Seq<char>, V>::empty(),
            m.keys().len() == 0,
    {
        let m = StrMap { entries: Vec::new() };
        assert(m@ =~= Map::<Seq<char>, V>::empty());
        m
    }

    /// The number of entries.
    pub fn len(&self) -> (n: usize)
        requires
            self.wf(),
        ensures
            n == self.keys().len(),
            n == self@.len(),
    {
        proof {
            self.lemma_view();
        }
        self.entries.len()
    }

    /// The key at position `i` of the list.
    pub fn key_at(&self, i: usize) -> (k: &String)
        requires
            self.wf(),
            i < self.keys().len(),
        ensures
            k@ == self.keys()[i as int],
            self@.contains_key(k@),
    {
        proof {
            self.lemma_view();
        }
        &self.entries[i].0
    }

    /// The value at position `i` of the list.
    pub fn value_at(&self, i: usize) -> (v: &V)
        requires
            self.wf(),
            i < self.keys().len(),
        ensures
            *v == self.values()[i as int],
            *v == self@[self.keys()[i as int]],
    {
        proof {
            self.lemma_view();
        }
        &self.entries[i].1
    }

    /// Where `key` stands in the list, if the map holds it.
    pub fn position(&self, key: &str) -> (r: Option<usize>)
        requires
            self.wf(),
        ensures
            r is Some <==> self@.contains_key(key@),
            r matches Some(i) ==> i < self.keys().len() && self.keys()[i as int] == key@,
    {
        proof {
            self.lemma_view();
        }
        let mut i: usize = 0;
        while i < self.entries.len()
            invariant
                self.wf(),
                i <= self.entries@.len(),
                self.keys().len() == self.entries@.len(),
                forall|j: int| 0 <= j < i ==> self.keys()[j] != key@,
            decreases self.entries@.len() - i,
        {
            assert(self.keys()[i as int] == self.entries@[i as int].0@);
            if *self.entries[i].0.as_str() == *key {
                proof {
                    self.lemma_view();
                }
                return Some(i);
            }
            i = i + 1;
        }
        None
    }

    /// Whether the map holds `key`.
    pub fn contains_key(&self, key: &str) -> (r: bool)
        requires
            self.wf(),
        ensures
            r == self@.contains_key(key@),
    {
        self.position(key).is_some()
    }

    /// The value of `key`, if the map holds it.
    pub fn get(&self, key: &str) -> (r: Option<&V>)
        requires
            self.wf(),
        ensures
            r is Some <==> self@.contains_key(key@),
            r matches Some(v) ==> *v == self@[key@],
    {
        match self.position(key) {
            Some(i) => {
                proof {
                    self.lemma_view();
                }
                Some(&self.entries[i].1)
            },
            None => None,
        }
    }

    /// Replaces the value at position `i`; the keys stay as they are.
    pub fn set_value_at(&mut self, i: usize, value: V)
        requires
            old(self).wf(),
            i < old(self).keys().len(),
        ensures
            final(self).wf(),
            final(self).keys() == old(self).keys(),
            final(self).values() == old(self).values().update(i as int, value),
            final(self)@ == old(self)@.insert(old(self).keys()[i as int], value),
    {
        self.entries[i].1 = value;
        proof {
            assert(self.keys() =~= old(self).keys());
            assert(self.values() =~= old(self).values().update(i as int, value));
            old(self).lemma_view();
            self.lemma_view();
            let k = old(self).keys()[i as int];
            assert forall|q: Seq<char>| #[trigger]
                self@.contains_key(q) implies self@[q] == old(self)@.insert(k, value)[q] by {
                let j = self.keys().index_of(q);
                assert(self.keys()[j] == q);
            }
            assert(self@ =~= old(self)@.insert(k, value));
        }
    }

    /// Maps `key` to `value`. A key that the map already holds keeps its place
    /// in the list; a new key goes to the end.
    pub fn insert(&mut self, key: String, value: V)
        requires
            old(self).wf(),
        ensures
            final(self).wf(),
            final(self)@ == old(self)@.insert(key@, value),
            old(self)@.contains_key(key@) ==> final(self).keys() == old(self).keys(),
            !old(self)@.contains_key(key@) ==> final(self).keys() == old(self).keys().push(key@)
                && final(self).values() == old(self).values().push(value),
    {
        match self.position(key.as_str()) {
            Some(i) => {
                self.set_value_at(i, value);
            },
            None => {
                self.entries.push((key, value));
                proof {
                    old(self).lemma_view();
                    assert(self.keys() =~= old(self).keys().push(key@));
                    assert(self.values() =~= old(self).values().push(value));
                    assert(self.wf());
                    self.lemma_view();
                    let last = old(self).keys().len() as int;
                    assert(self.keys()[last] == key@);
                    assert forall|q: Seq<char>| #[trigger]
                        self@.contains_key(q) implies self@[q] == old(self)@.insert(
                        key@,
                        value,
                    )[q] by {
                        let j = self.keys().index_of(q);
                        assert(self.keys()[j] == q);
                        if j < last {
                            assert(old(self).keys()[j] == q);
                        }
                    }
                    assert forall|q: Seq<char>| #[trigger]
                        old(self)@.contains_key(q) implies self@.contains_key(q) by {
                        let j = old(self).keys().index_of(q);
                        assert(self.keys()[j] == q);
                    }
                    assert(self@ =~= old(self)@.insert(key@, value));
                }
            },
        }
    }

    /// Takes `key` and its value out of the map; the other entries keep their
    /// order.
    pub fn remove(&mut self, key: &str) -> (r: Option<V>)
        requires
            old(self).wf(),
        ensures
            final(self).wf(),
            final(self)@ == old(self)@.remove(key@),
            r is Some <==> old(self)@.contains_key(key@),
            r matches Some(v) ==> v == old(self)@[key@],
    {
        match self.position(key) {
            Some(i) => {
                let entry = self.entries.remove(i);
                proof {
                    old(self).lemma_view();
                    assert(self.keys() =~= old(self).keys().remove(i as int));
                    assert(self.values() =~= old(self).values().remove(i as int));
                    assert(self.wf()) by {
                        assert forall|a: int, b: int|
                            0 <= a < self.keys().len() && 0 <= b < self.keys().len() && a
                                != b implies self.keys()[a] != self.keys()[b] by {
                            let a0 = if a < i { a } else { a + 1 };
                            let b0 = if b < i { b } else { b + 1 };
                            assert(self.keys()[a] == old(self).keys()[a0]);
                            assert(self.keys()[b] == old(self).keys()[b0]);
                        }
                    }
                    self.lemma_view();
                    assert forall|q: Seq<char>| #[trigger]
                        self@.contains_key(q) implies old(self)@.contains_key(q) && q != key@
                        && self@[q] == old(self)@[q] by {
                        let j = self.keys().index_of(q);
                        assert(self.keys()[j] == q);
                        let j0 = if j < i { j } else { j + 1 };
                        assert(old(self).keys()[j0] == q);
                    }
                    assert forall|q: Seq<char>| #[trigger]
                        old(self)@.contains_key(q) && q != key@ implies self@.contains_key(q) by {
                        let j0 = old(self).keys().index_of(q);
                        assert(old(self).keys()[j0] == q);
                        let j = if j0 < i { j0 } else { j0 - 1 };
                        assert(self.keys()[j] == q);
                    }
                    assert(self@ =~= old(self)@.remove(key@));
                }
                Some(entry.1)
            },
            None => {
                proof {
                    assert(self@ =~= old(self)@.remove(key@));
                }
                None
            },
        }
    }

    /// The map that a list of entries stands for, if no key occurs twice in
    /// the list.
    pub fn from_entries(entries: Vec<(String, V)>) -> (r: Option<StrMap<V>>)
        ensures
            r is Some <==> keys_of(entries@).no_duplicates(),
            r matches Some(m) ==> m.wf() && m.keys() == keys_of(entries@) && m.values()
                == values_of(entries@) && m@ == map_of(entries@),
    {
        let ghost all = entries@;
        let mut m: StrMap<V> = StrMap::new();
        assert(m.keys() =~= keys_of(all.take(0)));
        assert(m.values() =~= values_of(all.take(0)));
        for entry in it: entries
            invariant
                it.seq() == all,
                m.wf(),
                m.keys() == keys_of(all.take(it.index() as int)),
                m.values() == values_of(all.take(it.index() as int)),
        {
            let ghost n = it.index() as int;
            let (key, value) = entry;
            proof {
                lemma_take_next(all, n);
                m.lemma_view();
                assert(keys_of(all.take(n + 1)) =~= keys_of(all.take(n)).push(key@));
                assert(values_of(all.take(n + 1)) =~= values_of(all.take(n)).push(value));
            }
            if m.contains_key(key.as_str()) {
                proof {
                    let j = m.keys().index_of(key@);
                    assert(keys_of(all)[j] == keys_of(all.take(n))[j]);
                    assert(keys_of(all)[j] == keys_of(all)[n]);
                }
                return None;
            }
            m.insert(key, value);
        }
        proof {
            assert(all.take(all.len() as int) =~= all);
            m.lemma_view();
        }
        Some(m)
    }
}

impl StrMap<usize> {
    /// The entries of the map, in the order of the list.
    pub fn to_entries(&self) -> (out: Vec<(String, usize)>)
        requires
            self.wf(),
        ensures
            keys_of(out@) == self.keys(),
            values_of(out@) == self.values(),
            map_of(out@) == self@,
    {
        let mut out: Vec<(String, usize)> = Vec::new();
        let mut i: usize = 0;
        assert(keys_of(out@) =~= self.keys().take(0));
        assert(values_of(out@) =~= self.values().take(0));
        while i < self.entries.len()
            invariant
                i <= self.entries@.len(),
                self.entries@.len() == self.keys().len(),
                self.wf(),
                keys_of(out@) == self.keys().take(i as int),
                values_of(out@) == self.values().take(i as int),
            decreases self.entries@.len() - i,
        {
            let ghost before = out@;
            out.push((self.entries[i].0.clone(), self.entries[i].1));
            proof {
                assert(keys_of(out@) =~= keys_of(before).push(self.keys()[i as int]));
                assert(values_of(out@) =~= values_of(before).push(self.values()[i as int]));
                assert(self.keys().take(i + 1) =~= self.keys().take(i as int).push(
                    self.keys()[i as int],
                ));
                assert(self.values().take(i + 1) =~= self.values().take(i as int).push(
                    self.values()[i as int],
                ));
            }
            i = i + 1;
        }
        proof {
            assert(self.keys().take(i as int) =~= self.keys());
            assert(self.values().take(i as int) =~= self.values());
            self.lemma_view();
        }
        out
    }
}

} // verus!
