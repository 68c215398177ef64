//! Passes waiting on a list of things (prerequisite passes, data) to be done.
//!
//! Each pass waits on a list of keys. For each pass a counter holds how many
//! entries of its list are not yet done; marking a key done lowers the
//! counters and reports the passes whose counter reached zero.
use vstd::prelude::*;

use crate::generator_state::{entries_view, group_view};
use crate::id_map::IdMap;
use crate::report::names_of;

verus! {

/// How many entries of `s` are not in `done`.
pub open spec fn count_pending(s: Seq<Seq<char>>, done: Set<Seq<char>>) -> nat
    decreases s.len(),
{
    if s.len() == 0 {
        0
    } else {
        count_pending(s.drop_last(), done) + if done.contains(s.last()) {
            0nat
        } else {
            1nat
        }
    }
}

/// How many entries of `s` are `k`.
pub open spec fn count_occ(s: Seq<Seq<char>>, k: Seq<char>) -> nat
    decreases s.len(),
{
    if s.len() == 0 {
        0
    } else {
        count_occ(s.drop_last(), k) + if s.last() == k {
            1nat
        } else {
            0nat
        }
    }
}

/// Every entry of `s` is in `done`.
pub open spec fn all_in(s: Seq<Seq<char>>, done: Set<Seq<char>>) -> bool {
    forall|i: int| 0 <= i < s.len() ==> done.contains(#[trigger] s[i])
}

/// The keys of the entries whose list was not all done under `before` and is
/// all done under `after`, in order.
pub open spec fn newly_complete(
    entries: Seq<(Seq<char>, Seq<Seq<char>>)>,
    before: Set<Seq<char>>,
    after: Set<Seq<char>>,
) -> Seq<Seq<char>>
    decreases entries.len(),
{
    if entries.len() == 0 {
        Seq::empty()
    } else {
        let r = newly_complete(entries.drop_last(), before, after);
        let e = entries.last();
        if !all_in(e.1, before) && all_in(e.1, after) {
            r.push(e.0)
        } else {
            r
        }
    }
}

pub proof fn lemma_pending_zero(s: Seq<Seq<char>>, done: Set<Seq<char>>)
    ensures
        (count_pending(s, done) == 0) == all_in(s, done),
    decreases s.len(),
{
    if s.len() > 0 {
        lemma_pending_zero(s.drop_last(), done);
        if all_in(s, done) {
            assert forall|i: int| 0 <= i < s.drop_last().len() implies done.contains(
                #[trigger] s.drop_last()[i],
            ) by {
                assert(s.drop_last()[i] == s[i]);
            }
            assert(done.contains(s[s.len() - 1]));
        }
        if count_pending(s, done) == 0 {
            assert forall|i: int| 0 <= i < s.len() implies done.contains(#[trigger] s[i]) by {
                if i < s.len() - 1 {
                    assert(s.drop_last()[i] == s[i]);
                }
            }
        }
    }
}

pub proof fn lemma_pending_step(s: Seq<Seq<char>>, done: Set<Seq<char>>, k: Seq<char>)
    requires
        !done.contains(k),
    ensures
        count_pending(s, done) == count_pending(s, done.insert(k)) + count_occ(s, k),
    decreases s.len(),
{
    if s.len() > 0 {
        lemma_pending_step(s.drop_last(), done, k);
    }
}

pub proof fn lemma_pending_len(s: Seq<Seq<char>>)
    ensures
        count_pending(s, Set::empty()) == s.len(),
    decreases s.len(),
{
    if s.len() > 0 {
        lemma_pending_len(s.drop_last());
    }
}

/// What `newly_complete` holds: the keys, among those of `entries`, whose list
/// became all done; and no key twice when no key of `entries` repeats.
pub proof fn lemma_newly_complete(
    entries: Seq<(Seq<char>, Seq<Seq<char>>)>,
    before: Set<Seq<char>>,
    after: Set<Seq<char>>,
)
    ensures
        forall|x: Seq<char>| #[trigger]
            newly_complete(entries, before, after).contains(x) <==> exists|i: int|
                0 <= i < entries.len() && (#[trigger] entries[i]).0 == x && !all_in(
                    entries[i].1,
                    before,
                ) && all_in(entries[i].1, after),
        entries.map_values(|e: (Seq<char>, Seq<Seq<char>>)| e.0).no_duplicates()
            ==> newly_complete(entries, before, after).no_duplicates(),
    decreases entries.len(),
{
    if entries.len() > 0 {
        let init = entries.drop_last();
        lemma_newly_complete(init, before, after);
        let r = newly_complete(entries, before, after);
        let r0 = newly_complete(init, before, after);
        let n = entries.len() - 1;
        assert forall|x: Seq<char>| #[trigger] r.contains(x) <==> exists|i: int|
            0 <= i < entries.len() && (#[trigger] entries[i]).0 == x && !all_in(entries[i].1, before)
                && all_in(entries[i].1, after) by {
            if r.contains(x) {
                if r0.contains(x) {
                    let i = choose|i: int|
                        0 <= i < init.len() && (#[trigger] init[i]).0 == x && !all_in(init[i].1, before)
                            && all_in(init[i].1, after);
                    assert(entries[i] == init[i]);
                } else {
                    let j = choose|j: int| 0 <= j < r.len() && r[j] == x;
                    if j < r0.len() {
                        assert(r0[j] == x);
                    }
                    assert(entries[n].0 == x);
                }
            }
            if exists|i: int|
                0 <= i < entries.len() && (#[trigger] entries[i]).0 == x && !all_in(
                    entries[i].1,
                    before,
                ) && all_in(entries[i].1, after) {
                let i = choose|i: int|
                    0 <= i < entries.len() && (#[trigger] entries[i]).0 == x && !all_in(
                        entries[i].1,
                        before,
                    ) && all_in(entries[i].1, after);
                if i < n {
                    assert(init[i] == entries[i]);
                    assert(r0.contains(x));
                    let j = choose|j: int| 0 <= j < r0.len() && r0[j] == x;
                    assert(r[j] == x);
                } else {
                    assert(r[r.len() - 1] == x);
                }
            }
        }
        let keys = entries.map_values(|e: (Seq<char>, Seq<Seq<char>>)| e.0);
        let keys0 = init.map_values(|e: (Seq<char>, Seq<Seq<char>>)| e.0);
        if keys.no_duplicates() {
            assert forall|a: int, b: int|
                0 <= a < keys0.len() && 0 <= b < keys0.len() && a != b implies keys0[a] != keys0[b] by {
                assert(keys0[a] == keys[a] && keys0[b] == keys[b]);
            }
            let e = entries[n];
            if !all_in(e.1, before) && all_in(e.1, after) {
                if r0.contains(e.0) {
                    let i = choose|i: int|
                        0 <= i < init.len() && (#[trigger] init[i]).0 == e.0 && !all_in(
                            init[i].1,
                            before,
                        ) && all_in(init[i].1, after);
                    assert(keys[i] == keys[n]);
                }
                assert forall|a: int, b: int|
                    0 <= a < r.len() && 0 <= b < r.len() && a != b implies r[a] != r[b] by {
                    if a == r.len() - 1 {
                        assert(r0.contains(r[b]));
                    } else if b == r.len() - 1 {
                        assert(r0.contains(r[a]));
                    } else {
                        assert(r0[a] == r[a] && r0[b] == r[b]);
                    }
                }
            }
        }
    }
}

/// How many times `k` occurs in `v`.
fn count_occurrences(v: &Vec<String>, k: &String) -> (r: usize)
    ensures
        r == count_occ(names_of(v@), k@),
{
    let n = v.len();
    let mut c: usize = 0;
    let mut i: usize = 0;
    while i < n
        invariant
            n == v@.len(),
            i <= n,
            c <= i,
            c == count_occ(names_of(v@).take(i as int), k@),
        decreases n - i,
    {
        assert(names_of(v@).take(i + 1).drop_last() =~= names_of(v@).take(i as int));
        if v[i] == *k {
            c = c + 1;
        }
        i = i + 1;
    }
    assert(names_of(v@).take(n as int) =~= names_of(v@));
    c
}

pub struct WaitCounts {
    waits: IdMap<Vec<String>>,
    rem: IdMap<usize>,
    done: Vec<String>,
}

impl WaitCounts {
    /// What each pass waits on.
    pub closed spec fn waiting_on(&self) -> Map<Seq<char>, Seq<Seq<char>>> {
        group_view(self.waits)
    }

    /// The (pass, list) pairs in the order the passes were given.
    pub closed spec fn entries(&self) -> Seq<(Seq<char>, Seq<Seq<char>>)> {
        entries_view(self.waits)
    }

    /// The keys marked done.
    pub closed spec fn done_set(&self) -> Set<Seq<char>> {
        names_of(self.done@).to_set()
    }

    /// How many keys were marked done.
    pub closed spec fn done_count(&self) -> nat {
        self.done@.len()
    }

    pub closed spec fn wf(&self) -> bool {
        &&& self.waits.wf()
        &&& self.rem.wf()
        &&& self.rem.keys() == self.waits.keys()
        &&& names_of(self.done@).no_duplicates()
        &&& forall|i: int|
            0 <= i < self.rem.keys().len() ==> #[trigger] self.rem.vals()[i] == count_pending(
                names_of(self.waits.vals()[i]@),
                self.done_set(),
            )
    }

    /// The passes of `entries` in order, with no pass twice.
    pub proof fn lemma_entries(&self)
        requires
            self.wf(),
        ensures
            self.entries().map_values(|e: (Seq<char>, Seq<Seq<char>>)| e.0).no_duplicates(),
            forall|i: int|
                0 <= i < self.entries().len() ==> self.waiting_on().dom().contains(
                    (#[trigger] self.entries()[i]).0,
                ) && self.waiting_on()[self.entries()[i].0] == self.entries()[i].1,
            forall|p: Seq<char>|
                #[trigger] self.waiting_on().dom().contains(p) ==> exists|i: int|
                    0 <= i < self.entries().len() && (#[trigger] self.entries()[i]).0 == p,
            self.done_count() == self.done_set().len(),
    {
        let keys = self.entries().map_values(|e: (Seq<char>, Seq<Seq<char>>)| e.0);
        self.waits.lemma_lens();
        assert(keys =~= self.waits.keys());
        assert forall|i: int| 0 <= i < self.entries().len() implies self.waiting_on().dom().contains(
            (#[trigger] self.entries()[i]).0,
        ) && self.waiting_on()[self.entries()[i].0] == self.entries()[i].1 by {
            self.waits.lemma_view_index(i);
        }
        assert forall|p: Seq<char>| #[trigger] self.waiting_on().dom().contains(p) implies exists|i: int|
            0 <= i < self.entries().len() && (#[trigger] self.entries()[i]).0 == p by {
            let i = choose|i: int| 0 <= i < self.waits.keys().len() && self.waits.keys()[i] == p;
            assert(self.entries()[i].0 == p);
        }
        names_of(self.done@).unique_seq_to_set();
    }

    /// Counters for passes waiting on the lists in `waits`, nothing done yet.
    pub fn new(waits: IdMap<Vec<String>>) -> (r: WaitCounts)
        requires
            waits.wf(),
        ensures
            r.wf(),
            r.waiting_on() == group_view(waits),
            r.entries() == entries_view(waits),
            r.done_set() == Set::<Seq<char>>::empty(),
            r.done_count() == 0,
    {
        let mut rem: IdMap<usize> = IdMap::new();
        let n = waits.len();
        let mut i: usize = 0;
        proof {
            waits.lemma_lens();
        }
        while i < n
            invariant
                n == waits.keys().len(),
                n == waits.vals().len(),
                waits.wf(),
                rem.wf(),
                i <= n,
                rem.keys() == waits.keys().take(i as int),
                forall|j: int|
                    0 <= j < i ==> #[trigger] rem.vals()[j] == names_of(waits.vals()[j]@).len(),
            decreases n - i,
        {
            let k = waits.key_at(i).clone();
            let c = waits.value_at(i).len();
            proof {
                rem.lemma_lens();
                if rem@.dom().contains(k@) {
                    let j = choose|j: int| 0 <= j < rem.keys().len() && rem.keys()[j] == k@;
                    assert(waits.keys()[j] == waits.keys()[i as int]);
                }
            }
            rem.insert(k, c);
            proof {
                rem.lemma_lens();
                assert(rem.keys() =~= waits.keys().take(i + 1));
            }
            i = i + 1;
        }
        let r = WaitCounts { waits, rem, done: Vec::new() };
        proof {
            assert(rem.keys() =~= waits.keys());
            assert(names_of(r.done@) =~= Seq::<Seq<char>>::empty());
            assert(r.done_set() =~= Set::<Seq<char>>::empty());
            assert forall|j: int| 0 <= j < r.rem.keys().len() implies #[trigger] r.rem.vals()[j]
                == count_pending(names_of(r.waits.vals()[j]@), r.done_set()) by {
                lemma_pending_len(names_of(r.waits.vals()[j]@));
            }
        }
        r
    }

    /// Whether `k` was marked done.
    pub fn is_done(&self, k: &String) -> (b: bool)
        ensures
            b == self.done_set().contains(k@),
    {
        let b = crate::generator_state::vec_contains(&self.done, k);
        proof {
            if b {
                let j = choose|j: int| 0 <= j < names_of(self.done@).len() && names_of(self.done@)[j] == k@;
            }
        }
        b
    }

    /// Whether pass `p` still waits on something not done.
    pub fn is_waiting(&self, p: &String) -> (b: bool)
        requires
            self.wf(),
        ensures
            b == (self.waiting_on().dom().contains(p@) && !all_in(
                self.waiting_on()[p@],
                self.done_set(),
            )),
    {
        match self.rem.find(p) {
            Some(i) => {
                proof {
                    self.waits.lemma_view_index(i as int);
                    lemma_pending_zero(names_of(self.waits.vals()[i as int]@), self.done_set());
                }
                *self.rem.value_at(i) > 0
            },
            None => {
                proof {
                    if self.waits@.dom().contains(p@) {
                        let j = choose|j: int| 0 <= j < self.waits.keys().len() && self.waits.keys()[j] == p@;
                        assert(self.rem.keys().contains(p@));
                    }
                }
                false
            },
        }
    }

    /// Marks `key` done and returns, in order, the passes that waited on
    /// something and now wait on nothing.
    pub fn notify(&mut self, key: &String) -> (r: Vec<String>)
        requires
            old(self).wf(),
        ensures
            final(self).wf(),
            final(self).waiting_on() == old(self).waiting_on(),
            final(self).entries() == old(self).entries(),
            final(self).done_set() == old(self).done_set().insert(key@),
            final(self).done_count() == old(self).done_count() + if old(self).done_set().contains(
                key@,
            ) {
                0nat
            } else {
                1nat
            },
            names_of(r@) == newly_complete(
                old(self).entries(),
                old(self).done_set(),
                old(self).done_set().insert(key@),
            ),
    {
        let ghost done0 = self.done_set();
        let ghost entries = self.entries();
        if self.is_done(key) {
            proof {
                assert(done0.insert(key@) =~= done0);
                lemma_newly_complete_same(entries, done0);
            }
            return Vec::new();
        }
        let ghost done1 = done0.insert(key@);
        let mut released: Vec<String> = Vec::new();
        let n = self.rem.len();
        let mut i: usize = 0;
        proof {
            self.waits.lemma_lens();
        }
        while i < n
            invariant
                n == self.rem.keys().len(),
                n == self.waits.vals().len(),
                self.waits == old(self).waits,
                self.done == old(self).done,
                self.rem.wf(),
                self.rem.keys() == self.waits.keys(),
                entries == entries_view(self.waits),
                done0 == self.done_set(),
                done1 == done0.insert(key@),
                !done0.contains(key@),
                i <= n,
                forall|j: int|
                    0 <= j < i ==> #[trigger] self.rem.vals()[j] == count_pending(
                        names_of(self.waits.vals()[j]@),
                        done1,
                    ),
                forall|j: int|
                    i <= j < n ==> #[trigger] self.rem.vals()[j] == count_pending(
                        names_of(self.waits.vals()[j]@),
                        done0,
                    ),
                names_of(released@) == newly_complete(entries.take(i as int), done0, done1),
            decreases n - i,
        {
            let ghost before = released@;
            proof {
                self.rem.lemma_lens();
            }
            let ghost s = names_of(self.waits.vals()[i as int]@);
            let occ = count_occurrences(self.waits.value_at(i), key);
            let cur = *self.rem.value_at(i);
            proof {
                lemma_pending_step(s, done0, key@);
                lemma_pending_zero(s, done0);
                lemma_pending_zero(s, done1);
                if occ > 0 {
                    assert(!all_in(s, done0)) by {
                        lemma_occ_member(s, key@);
                    }
                } else {
                    assert(all_in(s, done0) == all_in(s, done1));
                }
                assert(entries.take(i + 1).drop_last() =~= entries.take(i as int));
                assert(entries.take(i + 1).last() == entries[i as int]);
                assert(entries[i as int] == (self.waits.keys()[i as int], s));
            }
            if occ > 0 {
                let left = cur - occ;
                self.rem.set_at(i, left);
                proof {
                    self.rem.lemma_lens();
                }
                if left == 0 {
                    released.push(self.waits.key_at(i).clone());
                    assert(names_of(released@) =~= names_of(before).push(entries[i as int].0));
                }
            }
            i = i + 1;
        }
        self.done.push(key.clone());
        proof {
            assert(entries.take(n as int) =~= entries);
            assert(names_of(self.done@) =~= names_of(old(self).done@).push(key@));
            names_of(old(self).done@).lemma_push_to_set_commute(key@);
            assert(self.done_set() =~= done1);
            assert(!names_of(old(self).done@).contains(key@));
            assert(names_of(self.done@).no_duplicates()) by {
                let d = names_of(self.done@);
                let d0 = names_of(old(self).done@);
                assert forall|a: int, b: int| 0 <= a < d.len() && 0 <= b < d.len() && a != b implies d[a]
                    != d[b] by {
                    if a == d.len() - 1 {
                        assert(d0.contains(d0[b]));
                    } else if b == d.len() - 1 {
                        assert(d0.contains(d0[a]));
                    } else {
                        assert(d[a] == d0[a] && d[b] == d0[b]);
                    }
                }
            }
            assert(self.waiting_on() == old(self).waiting_on());
            assert(self.entries() == old(self).entries());
        }
        released
    }
}

proof fn lemma_occ_member(s: Seq<Seq<char>>, k: Seq<char>)
    requires
        count_occ(s, k) > 0,
    ensures
        s.contains(k),
    decreases s.len(),
{
    if s.last() == k {
        assert(s[s.len() - 1] == k);
    } else {
        lemma_occ_member(s.drop_last(), k);
        let j = choose|j: int| 0 <= j < s.drop_last().len() && s.drop_last()[j] == k;
        assert(s[j] == k);
    }
}

proof fn lemma_newly_complete_same(entries: Seq<(Seq<char>, Seq<Seq<char>>)>, done: Set<Seq<char>>)
    ensures
        newly_complete(entries, done, done) == Seq::<Seq<char>>::empty(),
    decreases entries.len(),
{
    if entries.len() > 0 {
        lemma_newly_complete_same(entries.drop_last(), done);
    }
}

} // verus!
