//! A map from integer-triple positions to arbitrary values, backed by a
//! vector of entries with distinct keys.
//!
//! Chunk data, the chunk store and the per-chunk tables of the loader are all
//! sparse maps keyed by a position triple. This container keeps its entries
//! in insertion order, which also gives the mesher and the loader a
//! deterministic iteration order.

use vstd::prelude::*;

verus! {

/// An integer block or chunk position: one coordinate per axis.
pub type Position = (i32, i32, i32);

/// The mathematical contents of an entry sequence with distinct keys.
pub open spec fn map_of<K, V>(s: Seq<(K, V)>) -> Map<K, V>
    decreases s.len(),
{
    if s.len() == 0 {
        Map::empty()
    } else {
        map_of(s.drop_last()).insert(s.last().0, s.last().1)
    }
}

/// The keys of `s`, in entry order.
pub open spec fn keys_of<K, V>(s: Seq<(K, V)>) -> Seq<K> {
    s.map_values(|e: (K, V)| e.0)
}

/// Distinctness of the keys of an entry sequence.
pub open spec fn distinct_keys<K, V>(s: Seq<(K, V)>) -> bool {
    forall|i: int, j: int| 0 <= i < j < s.len() ==> s[i].0 != s[j].0
}

pub broadcast proof fn lemma_map_of_contains<K, V>(s: Seq<(K, V)>, k: K)
    ensures
        #[trigger] map_of(s).contains_key(k) <==> exists|i: int| 0 <= i < s.len() && s[i].0 == k,
    decreases s.len(),
{
    if s.len() > 0 {
        lemma_map_of_contains(s.drop_last(), k);
        if map_of(s).contains_key(k) {
            if k == s.last().0 {
                assert(s[s.len() - 1].0 == k);
            } else {
                let i = choose|i: int| 0 <= i < s.len() - 1 && s.drop_last()[i].0 == k;
                assert(s[i].0 == k);
            }
        }
        if exists|i: int| 0 <= i < s.len() && s[i].0 == k {
            let i = choose|i: int| 0 <= i < s.len() && s[i].0 == k;
            if i < s.len() - 1 {
                assert(s.drop_last()[i].0 == k);
            }
        }
    }
}

pub broadcast proof fn lemma_map_of_index<K, V>(s: Seq<(K, V)>, i: int)
    requires
        distinct_keys(s),
        0 <= i < s.len(),
    ensures
        map_of(s).contains_key(s[i].0),
        #[trigger] map_of(s)[s[i].0] == s[i].1,
    decreases s.len(),
{
    lemma_map_of_contains(s, s[i].0);
    if i < s.len() - 1 {
        assert(s.drop_last()[i] == s[i]);
        lemma_map_of_index(s.drop_last(), i);
        assert(s[i].0 != s.last().0);
    }
}

/// Removing entry `i` removes exactly its key from the contents.
pub proof fn lemma_map_of_remove<K, V>(s: Seq<(K, V)>, i: int)
    requires
        distinct_keys(s),
        0 <= i < s.len(),
    ensures
        map_of(s.remove(i)) == map_of(s).remove(s[i].0),
    decreases s.len(),
{
    lemma_map_of_index(s, i);
    if i == s.len() - 1 {
        assert(s.remove(i) =~= s.drop_last());
        lemma_map_of_contains(s.drop_last(), s[i].0);
        assert(map_of(s.drop_last()) =~= map_of(s).remove(s[i].0));
    } else {
        let t = s.remove(i);
        assert(t.drop_last() =~= s.drop_last().remove(i));
        assert(t.last() == s.last());
        assert(distinct_keys(s.drop_last()));
        lemma_map_of_remove(s.drop_last(), i);
        assert(s.drop_last()[i] == s[i]);
        assert(map_of(t) == map_of(s.drop_last().remove(i)).insert(s.last().0, s.last().1));
        assert(map_of(s.drop_last().remove(i)) == map_of(s.drop_last()).remove(s[i].0));
        assert(s[i].0 != s.last().0);
        assert(map_of(s.drop_last()).remove(s[i].0).insert(s.last().0, s.last().1) =~= map_of(
            s,
        ).remove(s[i].0));
    }
}

/// Updating the value of entry `i` in place updates exactly its key.
pub proof fn lemma_map_of_update<K, V>(s: Seq<(K, V)>, i: int, v: V)
    requires
        distinct_keys(s),
        0 <= i < s.len(),
    ensures
        map_of(s.update(i, (s[i].0, v))) == map_of(s).insert(s[i].0, v),
    decreases s.len(),
{
    let t = s.update(i, (s[i].0, v));
    if i == s.len() - 1 {
        assert(t.drop_last() =~= s.drop_last());
        assert(map_of(t) =~= map_of(s).insert(s[i].0, v));
    } else {
        assert(t.drop_last() =~= s.drop_last().update(i, (s[i].0, v)));
        assert(t.last() == s.last());
        assert(distinct_keys(s.drop_last()));
        assert(s.drop_last()[i] == s[i]);
        lemma_map_of_update(s.drop_last(), i, v);
        assert(s[i].0 != s.last().0);
        assert(map_of(s.drop_last()).insert(s[i].0, v).insert(s.last().0, s.last().1) =~= map_of(
            s,
        ).insert(s[i].0, v));
    }
}

/// With distinct keys the contents have exactly one entry per key.
pub proof fn lemma_map_of_len<K, V>(s: Seq<(K, V)>)
    requires
        distinct_keys(s),
    ensures
        map_of(s).dom().finite(),
        map_of(s).dom().len() == s.len(),
    decreases s.len(),
{
    if s.len() > 0 {
        assert(distinct_keys(s.drop_last()));
        lemma_map_of_len(s.drop_last());
        lemma_map_of_contains(s.drop_last(), s.last().0);
        assert(!map_of(s.drop_last()).contains_key(s.last().0));
        assert(map_of(s).dom() =~= map_of(s.drop_last()).dom().insert(s.last().0));
    }
}

/// An entry's key is always in the contents.
pub proof fn lemma_map_of_contains_at<K, V>(s: Seq<(K, V)>, i: int)
    requires
        0 <= i < s.len(),
    ensures
        map_of(s).contains_key(s[i].0),
    decreases s.len(),
{
    if i < s.len() - 1 {
        lemma_map_of_contains_at(s.drop_last(), i);
        assert(s.drop_last()[i] == s[i]);
    }
}

/// A key held by no entry is not in the contents.
pub proof fn lemma_map_of_not_contains<K, V>(s: Seq<(K, V)>, k: K)
    requires
        forall|i: int| 0 <= i < s.len() ==> s[i].0 != k,
    ensures
        !map_of(s).contains_key(k),
    decreases s.len(),
{
    if s.len() > 0 {
        assert(forall|i: int| 0 <= i < s.drop_last().len() ==> s.drop_last()[i] == s[i]);
        lemma_map_of_not_contains(s.drop_last(), k);
        assert(s[s.len() - 1].0 != k);
    }
}

/// The entry index of key `p` in `s`, meaningful when the key is held and
/// the keys are distinct.
pub open spec fn key_index<K, V>(s: Seq<(K, V)>, p: K) -> int {
    choose|i: int| 0 <= i < s.len() && s[i].0 == p
}

/// A held key names exactly one entry.
pub proof fn lemma_key_index<K, V>(s: Seq<(K, V)>, p: K)
    requires
        map_of(s).contains_key(p),
    ensures
        0 <= key_index(s, p) < s.len(),
        s[key_index(s, p)].0 == p,
{
    lemma_map_of_contains(s, p);
}

/// A sparse map from positions to values, in insertion order.
pub struct PosMap<V> {
    entries: Vec<(Position, V)>,
}

impl<V> PosMap<V> {
    /// The entries in insertion order.
    pub closed spec fn entries_seq(&self) -> Seq<(Position, V)> {
        self.entries@
    }

    /// The contents as a mathematical map.
    pub open spec fn view(&self) -> Map<Position, V> {
        map_of(self.entries_seq())
    }

    /// The keys are distinct.
    pub open spec fn wf(&self) -> bool {
        distinct_keys(self.entries_seq())
    }

    pub fn new() -> (r: Self)
        ensures
            r@ == Map::<Position, V>::empty(),
            r.entries_seq() == Seq::<(Position, V)>::empty(),
            r.wf(),
    {
        let entries: Vec<(Position, V)> = Vec::new();
        proof {
            assert(map_of(entries@) =~= Map::<Position, V>::empty());
        }
        Self { entries }
    }

    /// The number of entries, which equals the number of keys held.
    pub fn len(&self) -> (r: usize)
        ensures
            r == self.entries_seq().len(),
            self.wf() ==> r == self@.dom().len(),
    {
        proof {
            if self.wf() {
                lemma_map_of_len(self.entries_seq());
            }
        }
        self.entries.len()
    }

    /// Whether the map holds no entries.
    pub fn is_empty(&self) -> (r: bool)
        ensures
            r == (self.entries_seq().len() == 0),
            self.wf() ==> r == (self@.dom() == Set::<Position>::empty()),
    {
        proof {
            if self.wf() {
                lemma_map_of_len(self.entries_seq());
                if self.entries_seq().len() == 0 {
                    assert(self@.dom() =~= Set::<Position>::empty());
                } else {
                    lemma_map_of_contains_at(self.entries_seq(), 0);
                    assert(self@.dom().contains(self.entries_seq()[0].0));
                }
            }
        }
        self.entries.is_empty()
    }

    /// The entry at iteration index `i`.
    pub fn entry_at(&self, i: usize) -> (r: &(Position, V))
        requires
            i < self.entries_seq().len(),
        ensures
            *r == self.entries_seq()[i as int],
            self.wf() ==> self@.contains_key(r.0) && self@[r.0] == r.1,
    {
        proof {
            if self.wf() {
                lemma_map_of_index(self.entries_seq(), i as int);
            }
        }
        &self.entries[i]
    }

    fn find(&self, k: &Position) -> (r: Option<usize>)
        ensures
            match r {
                Some(i) => i < self.entries_seq().len() && self.entries_seq()[i as int].0 == *k,
                None => forall|i: int|
                    0 <= i < self.entries_seq().len() ==> self.entries_seq()[i].0 != *k,
            },
    {
        let mut i: usize = 0;
        while i < self.entries.len()
            invariant
                0 <= i <= self.entries_seq().len(),
                forall|j: int| 0 <= j < i ==> self.entries_seq()[j].0 != *k,
            decreases self.entries_seq().len() - i,
        {
            let e = &self.entries[i];
            if e.0.0 == k.0 && e.0.1 == k.1 && e.0.2 == k.2 {
                proof {
                    assert(self.entries_seq()[i as int].0 == *k);
                }
                return Some(i);
            }
            i += 1;
        }
        None
    }

    /// Whether a value is held for key `k`.
    pub fn contains_key(&self, k: &Position) -> (r: bool)
        ensures
            r == self@.contains_key(*k),
    {
        match self.find(k) {
            Some(i) => {
                proof {
                    lemma_map_of_contains_at(self.entries_seq(), i as int);
                }
                true
            },
            None => {
                proof {
                    lemma_map_of_not_contains(self.entries_seq(), *k);
                }
                false
            },
        }
    }

    /// The value held for key `k`, if any.
    pub fn get(&self, k: &Position) -> (r: Option<&V>)
        requires
            self.wf(),
        ensures
            match r {
                Some(v) => self@.contains_key(*k) && *v == self@[*k],
                None => !self@.contains_key(*k),
            },
    {
        match self.find(k) {
            Some(i) => {
                proof {
                    lemma_map_of_index(self.entries_seq(), i as int);
                }
                Some(&self.entries[i].1)
            },
            None => {
                proof {
                    lemma_map_of_not_contains(self.entries_seq(), *k);
                }
                None
            },
        }
    }

    /// Binds `k` to `v`: a present key keeps its place in the order, a new
    /// key goes to the back.
    pub fn insert(&mut self, k: Position, v: V)
        requires
            old(self).wf(),
        ensures
            final(self).wf(),
            final(self)@ == old(self)@.insert(k, v),
            keys_of(final(self).entries_seq()) == if old(self)@.contains_key(k) {
                keys_of(old(self).entries_seq())
            } else {
                keys_of(old(self).entries_seq()).push(k)
            },
            final(self).entries_seq().len() == old(self).entries_seq().len() + (
            if old(self)@.contains_key(k) {
                0int
            } else {
                1int
            }),
    {
        match self.find(&k) {
            Some(i) => {
                self.entries[i] = (k, v);
                proof {
                    lemma_map_of_contains_at(old(self).entries_seq(), i as int);
                    assert(self.entries_seq() =~= old(self).entries_seq().update(
                        i as int,
                        (old(self).entries_seq()[i as int].0, v),
                    ));
                    lemma_map_of_update(old(self).entries_seq(), i as int, v);
                    assert(keys_of(self.entries_seq()) =~= keys_of(old(self).entries_seq()));
                    assert forall|a: int, b: int|
                        0 <= a < b < self.entries_seq().len() implies self.entries_seq()[a].0
                        != self.entries_seq()[b].0 by {
                        assert(self.entries_seq()[a].0 == old(self).entries_seq()[a].0);
                        assert(self.entries_seq()[b].0 == old(self).entries_seq()[b].0);
                    }
                }
            },
            None => {
                self.entries.push((k, v));
                proof {
                    lemma_map_of_not_contains(old(self).entries_seq(), k);
                    assert(self.entries_seq().drop_last() =~= old(self).entries_seq());
                    assert(keys_of(self.entries_seq()) =~= keys_of(old(self).entries_seq()).push(
                        k,
                    ));
                    assert forall|a: int, b: int|
                        0 <= a < b < self.entries_seq().len() implies self.entries_seq()[a].0
                        != self.entries_seq()[b].0 by {
                        if b < self.entries_seq().len() - 1 {
                            assert(old(self).entries_seq()[a].0 != old(self).entries_seq()[b].0);
                        } else {
                            assert(old(self).entries_seq()[a].0 != k);
                        }
                    }
                }
            },
        }
    }

    /// Replaces the value of the entry at iteration index `i`, keeping its
    /// key and its place in the order.
    pub fn set_value_at(&mut self, i: usize, v: V)
        requires
            old(self).wf(),
            i < old(self).entries_seq().len(),
        ensures
            final(self).wf(),
            final(self)@ == old(self)@.insert(old(self).entries_seq()[i as int].0, v),
            final(self).entries_seq() == old(self).entries_seq().update(
                i as int,
                (old(self).entries_seq()[i as int].0, v),
            ),
    {
        let k = self.entries[i].0;
        self.entries[i] = (k, v);
        proof {
            assert(self.entries_seq() =~= old(self).entries_seq().update(
                i as int,
                (old(self).entries_seq()[i as int].0, v),
            ));
            lemma_map_of_update(old(self).entries_seq(), i as int, v);
            assert forall|a: int, b: int|
                0 <= a < b < self.entries_seq().len() implies self.entries_seq()[a].0
                != self.entries_seq()[b].0 by {
                assert(self.entries_seq()[a].0 == old(self).entries_seq()[a].0);
                assert(self.entries_seq()[b].0 == old(self).entries_seq()[b].0);
            }
        }
    }

    /// Drops the binding of `k`, if any, keeping the order of the rest, and
    /// returns the removed value.
    pub fn remove(&mut self, k: &Position) -> (r: Option<V>)
        requires
            old(self).wf(),
        ensures
            final(self).wf(),
            final(self)@ == old(self)@.remove(*k),
            r == if old(self)@.contains_key(*k) {
                Some(old(self)@[*k])
            } else {
                None
            },
            !old(self)@.contains_key(*k) ==> final(self).entries_seq() == old(self).entries_seq(),
            old(self)@.contains_key(*k) ==> exists|i: int|
                0 <= i < old(self).entries_seq().len() && old(self).entries_seq()[i].0 == *k
                    && final(self).entries_seq() == old(self).entries_seq().remove(i),
    {
        match self.find(k) {
            Some(i) => {
                let entry = self.entries.remove(i);
                proof {
                    lemma_map_of_contains_at(old(self).entries_seq(), i as int);
                    lemma_map_of_index(old(self).entries_seq(), i as int);
                    lemma_map_of_remove(old(self).entries_seq(), i as int);
                    assert(self.entries_seq() == old(self).entries_seq().remove(i as int));
                    assert forall|a: int, b: int|
                        0 <= a < b < self.entries_seq().len() implies self.entries_seq()[a].0
                        != self.entries_seq()[b].0 by {
                        let pa: int = if a < i {
                            a
                        } else {
                            a + 1
                        };
                        let pb: int = if b < i {
                            b
                        } else {
                            b + 1
                        };
                        assert(self.entries_seq()[a] == old(self).entries_seq()[pa]);
                        assert(self.entries_seq()[b] == old(self).entries_seq()[pb]);
                        assert(old(self).entries_seq()[pa].0 != old(self).entries_seq()[pb].0);
                    }
                }
                Some(entry.1)
            },
            None => {
                proof {
                    lemma_map_of_not_contains(self.entries_seq(), *k);
                    assert(self@ =~= old(self)@.remove(*k));
                }
                None
            },
        }
    }
}

} // verus!
