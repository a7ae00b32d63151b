//! A durable ordered map: key/record pairs held in ascending key order,
//! supporting point lookup, upsert, removal and ordered full iteration.
//! Its abstraction is a `Map<u64, _>` over the views of the records.

use vstd::prelude::*;

verus! {

/// A record that a durable map can hold: it has a mathematical view and can
/// be copied without changing that view.
pub trait Record: View + Sized {
    fn duplicate(&self) -> (r: Self)
        ensures
            r@ == self@,
    ;
}

/// Ascending, strictly: no key occurs twice.
pub open spec fn sorted_by_key<V>(s: Seq<(u64, V)>) -> bool {
    forall|i: int, j: int| #![trigger s[i], s[j]] 0 <= i < j < s.len() ==> s[i].0 < s[j].0
}

/// The map that a sequence of key/record pairs stands for; a later pair with
/// the same key would win, though a sorted sequence has no such pair.
pub open spec fn kv_map<V: View>(s: Seq<(u64, V)>) -> Map<u64, <V as View>::V>
    decreases s.len(),
{
    if s.len() == 0 {
        Map::empty()
    } else {
        kv_map(s.drop_last()).insert(s.last().0, s.last().1@)
    }
}

pub proof fn lemma_sorted_drop_last<V>(s: Seq<(u64, V)>)
    requires
        sorted_by_key(s),
        s.len() > 0,
    ensures
        sorted_by_key(s.drop_last()),
{
    assert forall|i: int, j: int| #![trigger s.drop_last()[i], s.drop_last()[j]]
        0 <= i < j < s.drop_last().len() implies s.drop_last()[i].0 < s.drop_last()[j].0 by {
        assert(s.drop_last()[i] == s[i]);
        assert(s.drop_last()[j] == s[j]);
    }
}

pub proof fn lemma_kv_map_contains<V: View>(s: Seq<(u64, V)>, k: u64)
    ensures
        kv_map(s).contains_key(k) <==> exists|i: int| 0 <= i < s.len() && s[i].0 == k,
    decreases s.len(),
{
    if s.len() > 0 {
        lemma_kv_map_contains(s.drop_last(), k);
        if s.last().0 == k {
            assert(s[s.len() - 1].0 == k);
        } else {
            if exists|i: int| 0 <= i < s.len() && s[i].0 == k {
                let i = choose|i: int| 0 <= i < s.len() && s[i].0 == k;
                assert(s.drop_last()[i].0 == k);
            }
            if exists|i: int| 0 <= i < s.drop_last().len() && s.drop_last()[i].0 == k {
                let i = choose|i: int| 0 <= i < s.drop_last().len() && s.drop_last()[i].0 == k;
                assert(s[i].0 == k);
            }
        }
    }
}

pub proof fn lemma_kv_map_index<V: View>(s: Seq<(u64, V)>, i: int)
    requires
        sorted_by_key(s),
        0 <= i < s.len(),
    ensures
        kv_map(s).contains_key(s[i].0),
        kv_map(s)[s[i].0] == s[i].1@,
    decreases s.len(),
{
    if i == s.len() - 1 {
    } else {
        lemma_sorted_drop_last(s);
        assert(s.drop_last()[i] == s[i]);
        lemma_kv_map_index(s.drop_last(), i);
        assert(s[i].0 < s.last().0);
    }
}

/// The quantified form of the two lemmas above, for one sorted sequence.
pub proof fn lemma_kv_map_all<V: View>(s: Seq<(u64, V)>)
    requires
        sorted_by_key(s),
    ensures
        forall|k: u64|
            #[trigger] kv_map(s).contains_key(k) ==> exists|i: int| 0 <= i < s.len() && s[i].0 == k,
        forall|i: int| #![trigger s[i]]
            0 <= i < s.len() ==> kv_map(s).contains_key(s[i].0) && kv_map(s)[s[i].0] == s[i].1@,
    {
    assert forall|k: u64| #[trigger] kv_map(s).contains_key(k)
        implies exists|i: int| 0 <= i < s.len() && s[i].0 == k by {
        lemma_kv_map_contains(s, k);
    }
    assert forall|i: int| #![trigger s[i]] 0 <= i < s.len()
        implies kv_map(s).contains_key(s[i].0) && kv_map(s)[s[i].0] == s[i].1@ by {
        lemma_kv_map_index(s, i);
    }
}

/// Two pair sequences with the same keys and view-equal records stand for
/// the same map.
pub proof fn lemma_kv_map_congruence<V: View>(e1: Seq<(u64, V)>, e2: Seq<(u64, V)>)
    requires
        e1.len() == e2.len(),
        forall|i: int| #![trigger e1[i], e2[i]]
            0 <= i < e1.len() ==> e1[i].0 == e2[i].0 && e1[i].1@ == e2[i].1@,
    ensures
        kv_map(e1) == kv_map(e2),
    decreases e1.len(),
{
    if e1.len() > 0 {
        assert forall|i: int| #![trigger e1.drop_last()[i], e2.drop_last()[i]]
            0 <= i < e1.drop_last().len() implies e1.drop_last()[i].0 == e2.drop_last()[i].0
            && e1.drop_last()[i].1@ == e2.drop_last()[i].1@ by {
            assert(e1.drop_last()[i] == e1[i]);
            assert(e2.drop_last()[i] == e2[i]);
        }
        lemma_kv_map_congruence(e1.drop_last(), e2.drop_last());
        assert(e1.last() == e1[e1.len() - 1]);
        assert(e2.last() == e2[e1.len() - 1]);
    }
}

/// A persistent key-to-record store: pairs in ascending key order. The
/// operations keep `wf()`; nothing else should write `entries` directly.
pub struct DurableMap<V> {
    pub entries: Vec<(u64, V)>,
}

impl<V: Record> View for DurableMap<V> {
    type V = Map<u64, <V as View>::V>;

    open spec fn view(&self) -> Map<u64, <V as View>::V> {
        kv_map(self.entries@)
    }
}

impl<V: Record> DurableMap<V> {
    pub open spec fn wf(&self) -> bool {
        sorted_by_key(self.entries@)
    }

    pub fn new() -> (r: Self)
        ensures
            r.wf(),
            r@ == Map::<u64, <V as View>::V>::empty(),
            r.entries@.len() == 0,
    {
        DurableMap { entries: Vec::new() }
    }

    /// The number of records held.
    pub fn len(&self) -> (r: usize)
        ensures
            r == self.entries@.len(),
    {
        self.entries.len()
    }

    fn position_of(&self, key: u64) -> (r: Option<usize>)
        ensures
            match r {
                Some(i) => i < self.entries@.len() && self.entries@[i as int].0 == key,
                None => forall|i: int| #![trigger self.entries@[i]]
                    0 <= i < self.entries@.len() ==> self.entries@[i].0 != key,
            },
    {
        let n: usize = self.entries.len();
        let mut i: usize = 0;
        while i < n
            invariant
                i <= n,
                n == self.entries@.len(),
                forall|j: int| #![trigger self.entries@[j]] 0 <= j < i ==> self.entries@[j].0 != key,
            decreases n - i,
        {
            if self.entries[i].0 == key {
                return Some(i);
            }
            i += 1;
        }
        None
    }

    /// Point lookup; no side effect.
    pub fn get(&self, key: u64) -> (r: Option<V>)
        requires
            self.wf(),
        ensures
            match r {
                Some(v) => self@.contains_key(key) && v@ == self@[key],
                None => !self@.contains_key(key),
            },
    {
        proof {
            lemma_kv_map_contains(self.entries@, key);
        }
        match self.position_of(key) {
            Some(i) => {
                proof {
                    lemma_kv_map_index(self.entries@, i as int);
                }
                Some(self.entries[i].1.duplicate())
            },
            None => None,
        }
    }

    /// Upsert: stores the record under the key and hands back the record
    /// previously there, if any.
    pub fn insert(&mut self, key: u64, value: V) -> (r: Option<V>)
        requires
            old(self).wf(),
        ensures
            final(self).wf(),
            final(self)@ == old(self)@.insert(key, value@),
            match r {
                Some(prev) => old(self)@.contains_key(key) && prev@ == old(self)@[key],
                None => !old(self)@.contains_key(key),
            },
    {
        let ghost s0 = self.entries@;
        proof {
            lemma_kv_map_all(s0);
            lemma_kv_map_contains(s0, key);
        }
        let n: usize = self.entries.len();
        let mut p: usize = 0;
        while p < n && self.entries[p].0 < key
            invariant
                p <= n,
                n == self.entries@.len(),
                self.entries@ == s0,
                forall|j: int| #![trigger self.entries@[j]] 0 <= j < p ==> self.entries@[j].0 < key,
            decreases n - p,
        {
            p += 1;
        }
        // every entry from p on has a key >= `key`
        proof {
            assert forall|j: int| #![trigger s0[j]] p <= j < s0.len() implies s0[j].0 >= key by {
                if s0[j].0 < key {
                    if j > p {
                        assert(s0[p as int].0 < s0[j].0);
                    }
                }
            }
        }
        if p < n && self.entries[p].0 == key {
            let prev = self.entries.remove(p);
            self.entries.insert(p, (key, value));
            proof {
                let s1 = self.entries@;
                assert(s1 =~= s0.update(p as int, (key, value)));
                assert forall|i: int, j: int| #![trigger s1[i], s1[j]] 0 <= i < j < s1.len()
                    implies s1[i].0 < s1[j].0 by {
                    assert(s0[i].0 < s0[j].0);
                }
                lemma_kv_map_all(s1);
                assert forall|k: u64| #[trigger] kv_map(s1).contains_key(k)
                    implies old(self)@.insert(key, value@).contains_key(k) by {
                    let i = choose|i: int| 0 <= i < s1.len() && s1[i].0 == k;
                    if i != p {
                        assert(s0[i].0 == k);
                        lemma_kv_map_index(s0, i);
                    }
                }
                assert forall|k: u64| #[trigger] old(self)@.insert(key, value@).contains_key(k)
                    implies kv_map(s1).contains_key(k) && kv_map(s1)[k]
                        == old(self)@.insert(key, value@)[k] by {
                    if k == key {
                        assert(s1[p as int].0 == key);
                        lemma_kv_map_index(s1, p as int);
                    } else {
                        lemma_kv_map_contains(s0, k);
                        let i = choose|i: int| 0 <= i < s0.len() && s0[i].0 == k;
                        assert(s1[i].0 == k);
                        lemma_kv_map_index(s0, i);
                        lemma_kv_map_index(s1, i);
                    }
                }
                assert(kv_map(s1) =~= old(self)@.insert(key, value@));
                lemma_kv_map_index(s0, p as int);
            }
            Some(prev.1)
        } else {
            self.entries.insert(p, (key, value));
            proof {
                let s1 = self.entries@;
                assert(s1 == s0.insert(p as int, (key, value)));
                assert forall|j: int| #![trigger s1[j]] 0 <= j < s1.len() implies
                    (j < p ==> s1[j] == s0[j]) && (j == p ==> s1[j] == (key, value)) && (j > p
                        ==> s1[j] == s0[j - 1]) by {}
                assert forall|i: int, j: int| #![trigger s1[i], s1[j]] 0 <= i < j < s1.len()
                    implies s1[i].0 < s1[j].0 by {
                    if i < p && j > p {
                        assert(s0[i].0 < key);
                        assert(s0[j - 1].0 >= key);
                        if s0[j - 1].0 == key {
                            assert(false);
                        }
                    } else if i == p && j > p {
                        assert(s0[j - 1].0 >= key && s0[j - 1].0 != key);
                    } else if i < p && j == p {
                        assert(s0[i].0 < key);
                    } else {
                        assert(s0[i].0 < s0[j].0 || s0[i - 1].0 < s0[j - 1].0);
                    }
                }
                lemma_kv_map_all(s1);
                assert forall|k: u64| #[trigger] kv_map(s1).contains_key(k)
                    implies old(self)@.insert(key, value@).contains_key(k) by {
                    let i = choose|i: int| 0 <= i < s1.len() && s1[i].0 == k;
                    if i < p {
                        lemma_kv_map_index(s0, i);
                    } else if i > p {
                        lemma_kv_map_index(s0, i - 1);
                    }
                }
                assert forall|k: u64| #[trigger] old(self)@.insert(key, value@).contains_key(k)
                    implies kv_map(s1).contains_key(k) && kv_map(s1)[k]
                        == old(self)@.insert(key, value@)[k] by {
                    if k == key {
                        assert(s1[p as int].0 == key);
                        lemma_kv_map_index(s1, p as int);
                    } else {
                        lemma_kv_map_contains(s0, k);
                        let i = choose|i: int| 0 <= i < s0.len() && s0[i].0 == k;
                        lemma_kv_map_index(s0, i);
                        if i < p {
                            assert(s1[i].0 == k);
                            lemma_kv_map_index(s1, i);
                        } else {
                            assert(s1[i + 1].0 == k);
                            lemma_kv_map_index(s1, i + 1);
                        }
                    }
                }
                assert(kv_map(s1) =~= old(self)@.insert(key, value@));
            }
            None
        }
    }

    /// Deletes and returns the record previously under the key, if any.
    pub fn remove(&mut self, key: u64) -> (r: Option<V>)
        requires
            old(self).wf(),
        ensures
            final(self).wf(),
            final(self)@ == old(self)@.remove(key),
            match r {
                Some(prev) => old(self)@.contains_key(key) && prev@ == old(self)@[key],
                None => !old(self)@.contains_key(key),
            },
    {
        let ghost s0 = self.entries@;
        proof {
            lemma_kv_map_contains(s0, key);
        }
        match self.position_of(key) {
            Some(i) => {
                proof {
                    lemma_kv_map_index(s0, i as int);
                }
                let prev = self.entries.remove(i);
                proof {
                    let s1 = self.entries@;
                    assert forall|a: int, b: int| #![trigger s1[a], s1[b]] 0 <= a < b < s1.len()
                        implies s1[a].0 < s1[b].0 by {
                        if b < i {
                            assert(s0[a].0 < s0[b].0);
                        } else if a < i {
                            assert(s0[a].0 < s0[b + 1].0);
                        } else {
                            assert(s0[a + 1].0 < s0[b + 1].0);
                        }
                    }
                    lemma_kv_map_all(s1);
                    assert forall|k: u64| #[trigger] kv_map(s1).contains_key(k)
                        implies old(self)@.remove(key).contains_key(k) by {
                        let a = choose|a: int| 0 <= a < s1.len() && s1[a].0 == k;
                        if a < i {
                            lemma_kv_map_index(s0, a);
                            assert(s0[a].0 != key);
                        } else {
                            lemma_kv_map_index(s0, a + 1);
                            assert(s0[a + 1].0 != key);
                        }
                    }
                    assert forall|k: u64| #[trigger] old(self)@.remove(key).contains_key(k)
                        implies kv_map(s1).contains_key(k) && kv_map(s1)[k]
                            == old(self)@.remove(key)[k] by {
                        lemma_kv_map_contains(s0, k);
                        let a = choose|a: int| 0 <= a < s0.len() && s0[a].0 == k;
                        lemma_kv_map_index(s0, a);
                        if a < i {
                            assert(s1[a].0 == k);
                            lemma_kv_map_index(s1, a);
                        } else {
                            assert(a != i);
                            assert(s1[a - 1].0 == k);
                            lemma_kv_map_index(s1, a - 1);
                        }
                    }
                    assert(kv_map(s1) =~= old(self)@.remove(key));
                }
                Some(prev.1)
            },
            None => {
                proof {
                    assert(kv_map(s0) =~= kv_map(s0).remove(key));
                }
                None
            },
        }
    }

    /// A point-in-time snapshot of all pairs, in ascending key order.
    pub fn iter(&self) -> (r: Vec<(u64, V)>)
        requires
            self.wf(),
        ensures
            r@.len() == self.entries@.len(),
            forall|i: int| #![trigger r@[i]]
                0 <= i < r@.len() ==> r@[i].0 == self.entries@[i].0 && r@[i].1@
                    == self.entries@[i].1@,
            forall|i: int| #![trigger r@[i]]
                0 <= i < r@.len() ==> self@.contains_key(r@[i].0) && self@[r@[i].0] == r@[i].1@,
            sorted_by_key(r@),
    {
        let n: usize = self.entries.len();
        let mut out: Vec<(u64, V)> = Vec::new();
        let mut i: usize = 0;
        while i < n
            invariant
                i <= n,
                n == self.entries@.len(),
                self.wf(),
                out@.len() == i,
                forall|j: int| #![trigger out@[j]]
                    0 <= j < i ==> out@[j].0 == self.entries@[j].0 && out@[j].1@
                        == self.entries@[j].1@,
            decreases n - i,
        {
            let key: u64 = self.entries[i].0;
            let rec = self.entries[i].1.duplicate();
            out.push((key, rec));
            i += 1;
        }
        proof {
            assert forall|a: int, b: int| #![trigger out@[a], out@[b]] 0 <= a < b < out@.len()
                implies out@[a].0 < out@[b].0 by {
                assert(self.entries@[a].0 < self.entries@[b].0);
            }
            assert forall|a: int| #![trigger out@[a]] 0 <= a < out@.len()
                implies self@.contains_key(out@[a].0) && self@[out@[a].0] == out@[a].1@ by {
                lemma_kv_map_index(self.entries@, a);
            }
        }
        out
    }
}

} // verus!
