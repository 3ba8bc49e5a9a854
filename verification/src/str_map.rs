//! A map keyed by strings that remembers insertion order.
use vstd::prelude::*;

verus! {

/// Whether the keys of `ps` are pairwise distinct.
pub open spec fn keys_distinct<T>(ps: Seq<(Seq<char>, T)>) -> bool {
    forall|i: int, j: int| 0 <= i < j < ps.len() ==> ps[i].0 != ps[j].0
}

/// Whether `k` is the key of some entry of `ps`.
pub open spec fn has_key<T>(ps: Seq<(Seq<char>, T)>, k: Seq<char>) -> bool {
    exists|i: int| 0 <= i < ps.len() && ps[i].0 == k
}

/// The map that an association list with distinct keys stands for.
pub open spec fn pairs_to_map<T>(ps: Seq<(Seq<char>, T)>) -> Map<Seq<char>, T> {
    Map::new(
        |k: Seq<char>| has_key(ps, k),
        |k: Seq<char>| ps[choose|i: int| 0 <= i < ps.len() && ps[i].0 == k].1,
    )
}

/// In an association list with distinct keys, entry `i` gives the value of its key.
pub proof fn lemma_pairs_to_map_at<T>(ps: Seq<(Seq<char>, T)>, i: int)
    requires
        keys_distinct(ps),
        0 <= i < ps.len(),
    ensures
        pairs_to_map(ps).contains_key(ps[i].0),
        pairs_to_map(ps)[ps[i].0] == ps[i].1,
{
    let k = ps[i].0;
    assert(has_key(ps, k));
    let j = choose|j: int| 0 <= j < ps.len() && ps[j].0 == k;
    assert(j == i);
}

/// A map from strings to `T` that keeps its entries in insertion order.
pub struct StrMap<T> {
    entries: Vec<(String, T)>,
}

impl<T> StrMap<T> {
    /// The entries, keys as character sequences, in insertion order.
    pub closed spec fn pairs(&self) -> Seq<(Seq<char>, T)> {
        pairs_of(self.entries@)
    }

    #[verifier::type_invariant]
    spec fn inv(&self) -> bool {
        keys_distinct(self.pairs())
    }

    /// An empty map.
    pub fn new() -> (m: Self)
        ensures
            m.pairs() == Seq::<(Seq<char>, T)>::empty(),
            m@ == Map::<Seq<char>, T>::empty(),
    {
        let m = StrMap { entries: Vec::new() };
        assert(m.pairs() =~= Seq::<(Seq<char>, T)>::empty());
        assert(m@ =~= Map::<Seq<char>, T>::empty());
        m
    }

    /// Number of entries.
    pub fn len(&self) -> (n: usize)
        ensures
            n == self.pairs().len(),
    {
        self.entries.len()
    }

    /// The key of entry `i`.
    pub fn key_at(&self, i: usize) -> (k: &String)
        requires
            i < self.pairs().len(),
        ensures
            k@ == self.pairs()[i as int].0,
    {
        &self.entries[i].0
    }

    /// The value of entry `i`, which is the value stored under its key.
    pub fn value_at(&self, i: usize) -> (v: &T)
        requires
            i < self.pairs().len(),
        ensures
            *v == self.pairs()[i as int].1,
            self@.contains_key(self.pairs()[i as int].0),
            self@[self.pairs()[i as int].0] == *v,
    {
        proof {
            use_type_invariant(self);
            lemma_pairs_to_map_at(self.pairs(), i as int);
        }
        &self.entries[i].1
    }

    /// Position of the entry with key `key`.
    pub fn position(&self, key: &String) -> (r: Option<usize>)
        ensures
            r matches Some(i) ==> i < self.pairs().len() && self.pairs()[i as int].0 == key@,
            r is None ==> !has_key(self.pairs(), key@),
    {
        let mut i: usize = 0;
        while i < self.entries.len()
            invariant
                0 <= i <= self.entries@.len(),
                forall|j: int| 0 <= j < i ==> self.pairs()[j].0 != key@,
            decreases self.entries@.len() - i,
        {
            if self.entries[i].0 == *key {
                return Some(i);
            }
            i = i + 1;
        }
        None
    }

    /// The value stored under `key`.
    pub fn get(&self, key: &String) -> (r: Option<&T>)
        ensures
            r matches Some(v) ==> self@.contains_key(key@) && *v == self@[key@],
            r is None ==> !self@.contains_key(key@),
    {
        proof {
            use_type_invariant(self);
        }
        match self.position(key) {
            Some(i) => {
                proof {
                    lemma_pairs_to_map_at(self.pairs(), i as int);
                }
                Some(&self.entries[i].1)
            },
            None => None,
        }
    }

    /// Whether `key` has an entry.
    pub fn contains_key(&self, key: &String) -> (r: bool)
        ensures
            r == self@.contains_key(key@),
    {
        self.position(key).is_some()
    }

    /// Stores `value` under `key`: an existing entry keeps its place and takes
    /// the new value, a new key is appended.
    pub fn insert(&mut self, key: String, value: T)
        ensures
            final(self)@ == old(self)@.insert(key@, value),
            has_key(old(self).pairs(), key@) ==> final(self).pairs().len() == old(self).pairs().len(),
            !has_key(old(self).pairs(), key@) ==> final(self).pairs() == old(self).pairs().push(
                (key@, value),
            ),
    {
        proof {
            use_type_invariant(&*self);
        }
        let ghost old_pairs = self.pairs();
        let ghost kv = key@;
        let pos = self.position(&key);
        let mut entries: Vec<(String, T)> = Vec::new();
        std::mem::swap(&mut entries, &mut self.entries);
        assert(pairs_of(entries@) == old_pairs);
        let ghost idx: int;
        match pos {
            Some(i) => {
                entries.set(i, (key, value));
                proof {
                    idx = i as int;
                    assert(pairs_of(entries@) =~= old_pairs.update(idx, (kv, value)));
                }
            },
            None => {
                entries.push((key, value));
                proof {
                    idx = old_pairs.len() as int;
                    assert(pairs_of(entries@) =~= old_pairs.push((kv, value)));
                }
            },
        }
        let ghost ps = pairs_of(entries@);
        proof {
            assert(0 <= idx < ps.len() && ps[idx] == (kv, value));
            assert(forall|j: int| 0 <= j < ps.len() && j != idx ==> ps[j] == old_pairs[j]);
            assert(keys_distinct(ps));
        }
        self.entries = entries;
        proof {
            let m = pairs_to_map(old_pairs).insert(kv, value);
            assert forall|k: Seq<char>| #[trigger] self@.contains_key(k) == m.contains_key(k) by {
                if has_key(old_pairs, k) {
                    let j = choose|j: int| 0 <= j < old_pairs.len() && old_pairs[j].0 == k;
                    assert(ps[j].0 == k || ps[j].0 == kv);
                    assert(has_key(ps, k));
                }
                if k == kv {
                    assert(ps[idx].0 == k);
                    assert(has_key(ps, k));
                }
                if has_key(ps, k) && k != kv {
                    let j = choose|j: int| 0 <= j < ps.len() && ps[j].0 == k;
                    assert(old_pairs[j].0 == k);
                    assert(has_key(old_pairs, k));
                }
            }
            assert forall|k: Seq<char>| self@.contains_key(k) implies #[trigger] self@[k] == m[k] by {
                let j = choose|j: int| 0 <= j < ps.len() && ps[j].0 == k;
                lemma_pairs_to_map_at(ps, j);
                if k != kv {
                    lemma_pairs_to_map_at(old_pairs, j);
                } else {
                    assert(j == idx);
                }
            }
            assert(self@ =~= m);
        }
    }
}

/// Keys as character sequences, values unchanged.
pub open spec fn pairs_of<T>(v: Seq<(String, T)>) -> Seq<(Seq<char>, T)> {
    v.map_values(|e: (String, T)| (e.0@, e.1))
}

impl<T> View for StrMap<T> {
    type V = Map<Seq<char>, T>;

    open spec fn view(&self) -> Map<Seq<char>, T> {
        pairs_to_map(self.pairs())
    }
}

} // verus!
