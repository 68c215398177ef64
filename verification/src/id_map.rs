//! An insertion-ordered map from string identifiers to values.
//!
//! Passes, data and parameters are all named by strings. `IdMap` keeps
//! its entries in the order their keys were first inserted, holds each
//! key at most once, and is viewed as a `Map` from the key's characters
//! to the value.
use vstd::prelude::*;

verus! {

pub struct IdMap<T> {
    entries: Vec<(String, T)>,
}

impl<T> IdMap<T> {
    /// The keys, in insertion order.
    pub closed spec fn keys(&self) -> Seq<Seq<char>> {
        self.entries@.map_values(|e: (String, T)| e.0@)
    }

    /// The values, aligned with `keys()`.
    pub closed spec fn vals(&self) -> Seq<T> {
        self.entries@.map_values(|e: (String, T)| e.1)
    }

    /// Well-formedness: no key occurs twice.
    pub open spec fn wf(&self) -> bool {
        self.keys().no_duplicates()
    }

    pub closed spec fn index_of_key(&self, k: Seq<char>) -> int {
        choose|i: int| 0 <= i < self.keys().len() && self.keys()[i] == k
    }

    pub open spec fn view(&self) -> Map<Seq<char>, T> {
        Map::new(
            |k: Seq<char>| self.keys().contains(k),
            |k: Seq<char>| self.vals()[self.index_of_key(k)],
        )
    }

    /// The (key, value) pairs, in insertion order.
    pub open spec fn pairs(&self) -> Seq<(Seq<char>, T)> {
        Seq::new(self.keys().len(), |i: int| (self.keys()[i], self.vals()[i]))
    }

    /// The entries, in insertion order, with their keys as strings.
    pub fn into_vec(self) -> (r: Vec<(String, T)>)
        ensures
            r@.map_values(|e: (String, T)| (e.0@, e.1)) == self.pairs(),
    {
        let r = self.entries;
        assert(r@.map_values(|e: (String, T)| (e.0@, e.1)) =~= self.pairs());
        r
    }

    pub proof fn lemma_lens(&self)
        ensures
            self.keys().len() == self.vals().len(),
    {
    }

    /// In a well-formed map, the value stored beside the `i`-th key is what the
    /// map gives for that key.
    pub proof fn lemma_view_index(&self, i: int)
        requires
            self.wf(),
            0 <= i < self.keys().len(),
        ensures
            self@.dom().contains(self.keys()[i]),
            self@[self.keys()[i]] == self.vals()[i],
            self.index_of_key(self.keys()[i]) == i,
    {
        assert(self.keys().contains(self.keys()[i]));
        let j = self.index_of_key(self.keys()[i]);
        assert(0 <= j < self.keys().len() && self.keys()[j] == self.keys()[i]);
    }

    pub fn new() -> (r: Self)
        ensures
            r.wf(),
            r@ == Map::<Seq<char>, T>::empty(),
            r.keys() == Seq::<Seq<char>>::empty(),
    {
        let r = IdMap { entries: Vec::new() };
        assert(r@ =~= Map::<Seq<char>, T>::empty());
        assert(r.keys() =~= Seq::<Seq<char>>::empty());
        r
    }

    pub fn len(&self) -> (n: usize)
        ensures
            n == self.keys().len(),
            n == self.vals().len(),
    {
        self.entries.len()
    }

    pub fn key_at(&self, i: usize) -> (k: &String)
        requires
            i < self.keys().len(),
        ensures
            k@ == self.keys()[i as int],
    {
        &self.entries[i].0
    }

    pub fn value_at(&self, i: usize) -> (v: &T)
        requires
            i < self.keys().len(),
        ensures
            *v == self.vals()[i as int],
    {
        &self.entries[i].1
    }

    /// The position of key `k`, if present.
    pub fn find(&self, k: &String) -> (r: Option<usize>)
        requires
            self.wf(),
        ensures
            match r {
                Some(i) => i < self.keys().len() && self.keys()[i as int] == k@
                    && self@.dom().contains(k@) && self@[k@] == self.vals()[i as int],
                None => !self@.dom().contains(k@) && !self.keys().contains(k@),
            },
    {
        let n = self.entries.len();
        let mut i: usize = 0;
        while i < n
            invariant
                n == self.entries@.len(),
                self.wf(),
                i <= n,
                forall|j: int| 0 <= j < i ==> self.keys()[j] != k@,
            decreases n - i,
        {
            if self.entries[i].0 == *k {
                proof {
                    self.lemma_view_index(i as int);
                }
                return Some(i);
            }
            i = i + 1;
        }
        None
    }

    pub fn contains_key(&self, k: &String) -> (b: bool)
        requires
            self.wf(),
        ensures
            b == self@.dom().contains(k@),
    {
        self.find(k).is_some()
    }

    pub fn get(&self, k: &String) -> (r: Option<&T>)
        requires
            self.wf(),
        ensures
            match r {
                Some(v) => self@.dom().contains(k@) && *v == self@[k@],
                None => !self@.dom().contains(k@),
            },
    {
        match self.find(k) {
            Some(i) => Some(&self.entries[i].1),
            None => None,
        }
    }

    /// The value at position `i`, to be changed in place; the keys and the
    /// other values stay.
    pub fn value_at_mut(&mut self, i: usize) -> (v: &mut T)
        requires
            old(self).wf(),
            i < old(self).keys().len(),
        ensures
            *v == old(self).vals()[i as int],
            final(self).keys() == old(self).keys(),
            final(self).vals() == old(self).vals().update(i as int, *final(v)),
            final(self).wf(),
            final(self)@ == old(self)@.insert(old(self).keys()[i as int], *final(v)),
    {
        proof {
            assert forall|j: int| 0 <= j < old(self).keys().len() implies #[trigger] old(self).index_of_key(
                old(self).keys()[j],
            ) == j by {
                old(self).lemma_view_index(j);
            }
        }
        let e = &mut self.entries[i];
        &mut e.1
    }

    /// Replaces the value at position `i`, keeping the key and the order.
    pub fn set_at(&mut self, i: usize, v: T)
        requires
            old(self).wf(),
            i < old(self).keys().len(),
        ensures
            final(self).wf(),
            final(self).keys() == old(self).keys(),
            final(self).vals() == old(self).vals().update(i as int, v),
            final(self)@ == old(self)@.insert(old(self).keys()[i as int], v),
    {
        let ghost k = self.keys()[i as int];
        let key = self.entries[i].0.clone();
        self.entries.set(i, (key, v));
        assert(self.keys() =~= old(self).keys());
        assert(self.vals() =~= old(self).vals().update(i as int, v));
        proof {
            assert forall|kk: Seq<char>| #[trigger] self@.dom().contains(kk) <==> old(self)@.insert(k, v).dom().contains(kk) by {
            }
            assert forall|kk: Seq<char>| self@.dom().contains(kk) implies #[trigger] self@[kk] == old(self)@.insert(k, v)[kk] by {
                let j = choose|j: int| 0 <= j < self.keys().len() && self.keys()[j] == kk;
                self.lemma_view_index(j);
                old(self).lemma_view_index(j);
            }
            assert(self@ =~= old(self)@.insert(k, v));
        }
    }

    /// Inserts or overwrites the value for `k`. A new key goes to the end.
    pub fn insert(&mut self, k: String, v: T)
        requires
            old(self).wf(),
        ensures
            final(self).wf(),
            final(self)@ == old(self)@.insert(k@, v),
            old(self)@.dom().contains(k@) ==> final(self).keys() == old(self).keys(),
            !old(self)@.dom().contains(k@) ==> final(self).keys() == old(self).keys().push(k@),
            !old(self)@.dom().contains(k@) ==> final(self).vals() == old(self).vals().push(v),
    {
        match self.find(&k) {
            Some(i) => {
                self.set_at(i, v);
            },
            None => {
                let ghost kv = k@;
                self.entries.push((k, v));
                assert(self.keys() =~= old(self).keys().push(kv));
                assert(self.vals() =~= old(self).vals().push(v));
                proof {
                    let n = old(self).keys().len();
                    assert forall|a: int, b: int|
                        0 <= a < self.keys().len() && 0 <= b < self.keys().len() && a != b
                        implies self.keys()[a] != self.keys()[b] by {
                        if a == n {
                            assert(old(self).keys().contains(old(self).keys()[b]));
                        } else if b == n {
                            assert(old(self).keys().contains(old(self).keys()[a]));
                        }
                    }
                    assert forall|kk: Seq<char>| #[trigger] self@.dom().contains(kk) <==> old(self)@.insert(kv, v).dom().contains(kk) by {
                        if self.keys().contains(kk) {
                            let j = choose|j: int| 0 <= j < self.keys().len() && self.keys()[j] == kk;
                            if j < n {
                                assert(old(self).keys().contains(kk));
                            }
                        }
                        if old(self).keys().contains(kk) {
                            let j = choose|j: int| 0 <= j < old(self).keys().len() && old(self).keys()[j] == kk;
                            assert(self.keys()[j] == kk);
                        }
                        if kk == kv {
                            assert(self.keys()[n as int] == kk);
                        }
                    }
                    assert forall|kk: Seq<char>| self@.dom().contains(kk) implies #[trigger] self@[kk] == old(self)@.insert(kv, v)[kk] by {
                        let j = choose|j: int| 0 <= j < self.keys().len() && self.keys()[j] == kk;
                        self.lemma_view_index(j);
                        if j < n {
                            old(self).lemma_view_index(j);
                        }
                    }
                    assert(self@ =~= old(self)@.insert(kv, v));
                }
            },
        }
    }
}

} // verus!
