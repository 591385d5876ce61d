//! An insertion-ordered set backed by a vector of distinct elements.
//!
//! The flood fill of the visibility-graph builder and the loader's
//! bookkeeping both need a set whose elements can also be taken out in a
//! first-in-first-out fashion.

use vstd::prelude::*;

verus! {

use vstd::std_specs::cmp::PartialEqSpec;

/// Holds when the executable `==` of `T` agrees with mathematical equality,
/// which is what every contract of [`VecSet`] speaks of. Integer types and
/// tuples of them satisfy this.
pub open spec fn eq_reflects<T: PartialEq>() -> bool {
    &&& T::obeys_eq_spec()
    &&& forall|a: T, b: T| #[trigger] a.eq_spec(&b) <==> a == b
}

/// A sequence of distinct elements that injects into `[0, n)` holds at most
/// `n` elements.
pub proof fn lemma_distinct_seq_len<T>(s: Seq<T>, f: spec_fn(T) -> int, n: int)
    requires
        n >= 0,
        forall|i: int, j: int| 0 <= i < j < s.len() ==> s[i] != s[j],
        forall|i: int, j: int| 0 <= i < j < s.len() ==> f(s[i]) != f(s[j]),
        forall|i: int| 0 <= i < s.len() ==> 0 <= #[trigger] f(s[i]) < n,
    ensures
        s.len() <= n,
{
    let m = s.map_values(f);
    assert(m.no_duplicates()) by {
        assert forall|i: int, j: int|
            0 <= i < m.len() && 0 <= j < m.len() && i != j implies m[i] != m[j] by {
            if i < j {
                assert(f(s[i]) != f(s[j]));
            } else {
                assert(f(s[j]) != f(s[i]));
            }
        }
    }
    m.unique_seq_to_set();
    assert(m.to_set().subset_of(vstd::set_lib::set_int_range(0, n))) by {
        assert forall|x: int| m.to_set().contains(x) implies vstd::set_lib::set_int_range(
            0,
            n,
        ).contains(x) by {
            let i = choose|i: int| 0 <= i < m.len() && m[i] == x;
            assert(0 <= f(s[i]) < n);
        }
    }
    vstd::set_lib::lemma_int_range(0, n);
    vstd::set_lib::lemma_len_subset(m.to_set(), vstd::set_lib::set_int_range(0, n));
}

/// An insertion-ordered collection of distinct elements.
pub struct VecSet<T> {
    vec: Vec<T>,
}

impl<T: PartialEq + Clone> VecSet<T> {
    /// The elements in insertion order.
    pub closed spec fn view(&self) -> Seq<T> {
        self.vec@
    }

    /// The elements are distinct.
    pub open spec fn wf(&self) -> bool {
        forall|i: int, j: int| 0 <= i < j < self@.len() ==> self@[i] != self@[j]
    }

    pub fn new() -> (r: Self)
        ensures
            r@ == Seq::<T>::empty(),
            r.wf(),
    {
        Self { vec: Vec::new() }
    }

    /// Adds `elem` at the back unless it is already present.
    pub fn insert(&mut self, elem: T)
        requires
            old(self).wf(),
            eq_reflects::<T>(),
        ensures
            final(self).wf(),
            final(self)@ == if old(self)@.contains(elem) {
                old(self)@
            } else {
                old(self)@.push(elem)
            },
            forall|x: T| #[trigger] final(self)@.contains(x) <==> old(self)@.contains(x) || x
                == elem,
    {
        if !self.contains(&elem) {
            self.vec.push(elem);
            proof {
                assert(self@ == old(self)@.push(elem));
                assert forall|x: T| #[trigger] self@.contains(x) implies old(self)@.contains(x)
                    || x == elem by {
                    let k = choose|k: int| 0 <= k < self@.len() && self@[k] == x;
                    if k < old(self)@.len() {
                        assert(old(self)@[k] == x);
                    }
                }
                assert forall|x: T| old(self)@.contains(x) || x == elem implies #[trigger] self@.contains(
                    x,
                ) by {
                    if old(self)@.contains(x) {
                        let k = choose|k: int| 0 <= k < old(self)@.len() && old(self)@[k] == x;
                        assert(self@[k] == x);
                    } else {
                        assert(self@[self@.len() - 1] == x);
                    }
                }
            }
        }
    }

    /// Takes out the oldest element, if any.
    pub fn remove_front(&mut self) -> (r: Option<T>)
        requires
            old(self).wf(),
        ensures
            final(self).wf(),
            old(self)@.len() == 0 ==> r is None && final(self)@ == old(self)@,
            old(self)@.len() > 0 ==> r == Some(old(self)@[0]) && final(self)@ == old(
                self,
            )@.drop_first() && old(self)@.contains(old(self)@[0]),
            forall|x: T| #[trigger] final(self)@.contains(x) ==> old(self)@.contains(x),
    {
        if self.vec.len() < 1 {
            return None;
        }
        let elem = self.vec.remove(0);
        proof {
            assert(self@ =~= old(self)@.drop_first());
            assert(old(self)@[0] == elem);
            assert forall|x: T| #[trigger] self@.contains(x) implies old(self)@.contains(x) by {
                let k = choose|k: int| 0 <= k < self@.len() && self@[k] == x;
                assert(old(self)@[k + 1] == x);
            }
        }
        Some(elem)
    }

    /// Removes `elem` if present; the last element takes its place.
    pub fn remove(&mut self, elem: &T)
        requires
            old(self).wf(),
            eq_reflects::<T>(),
        ensures
            final(self).wf(),
            !old(self)@.contains(*elem) ==> final(self)@ == old(self)@,
            old(self)@.contains(*elem) ==> exists|i: int|
                0 <= i < old(self)@.len() && old(self)@[i] == *elem && final(self)@ == old(
                    self,
                )@.update(i, old(self)@.last()).drop_last(),
            forall|x: T| #[trigger] final(self)@.contains(x) <==> old(self)@.contains(x) && x
                != *elem,
            final(self)@.len() == if old(self)@.contains(*elem) {
                old(self)@.len() - 1
            } else {
                old(self)@.len() as int
            },
    {
        let mut i: usize = 0;
        while i < self.vec.len()
            invariant
                0 <= i <= self@.len(),
                self@ == old(self)@,
                eq_reflects::<T>(),
                forall|a: int, b: int| 0 <= a < b < self@.len() ==> self@[a] != self@[b],
                forall|k: int| 0 <= k < i ==> self@[k] != *elem,
            decreases self@.len() - i,
        {
            if &self.vec[i] == elem {
                proof {
                    assert(old(self)@[i as int] == *elem);
                    assert(old(self)@.contains(*elem));
                }
                self.vec.swap_remove(i);
                proof {
                    assert(self@ == old(self)@.update(i as int, old(self)@.last()).drop_last());
                    assert forall|a: int, b: int|
                        0 <= a < b < self@.len() implies self@[a] != self@[b] by {
                        let pa: int = if a == i {
                            old(self)@.len() - 1
                        } else {
                            a
                        };
                        let pb: int = if b == i {
                            old(self)@.len() - 1
                        } else {
                            b
                        };
                        assert(self@[a] == old(self)@[pa]);
                        assert(self@[b] == old(self)@[pb]);
                        assert(pa != pb);
                    }
                    assert forall|x: T| #[trigger] self@.contains(x) implies old(self)@.contains(x)
                        && x != *elem by {
                        let k = choose|k: int| 0 <= k < self@.len() && self@[k] == x;
                        let pk: int = if k == i {
                            old(self)@.len() - 1
                        } else {
                            k
                        };
                        assert(old(self)@[pk] == x);
                        assert(pk != i);
                        assert(old(self)@[pk] != old(self)@[i as int]);
                    }
                    assert forall|x: T|
                        old(self)@.contains(x) && x != *elem implies #[trigger] self@.contains(
                        x,
                    ) by {
                        let k = choose|k: int| 0 <= k < old(self)@.len() && old(self)@[k] == x;
                        assert(k != i);
                        if k == old(self)@.len() - 1 {
                            assert(self@[i as int] == x);
                        } else {
                            assert(self@[k] == x);
                        }
                    }
                }
                return ;
            }
            i += 1;
        }
        proof {
            assert forall|x: T| #[trigger] self@.contains(x) implies old(self)@.contains(x) && x
                != *elem by {
                let k = choose|k: int| 0 <= k < self@.len() && self@[k] == x;
                assert(self@[k] != *elem);
            }
            if old(self)@.contains(*elem) {
                let k = choose|k: int| 0 <= k < old(self)@.len() && old(self)@[k] == *elem;
                assert(self@[k] == *elem);
                assert(false);
            }
        }
    }

    /// Whether `elem` is in the set.
    pub fn contains(&self, elem: &T) -> (r: bool)
        requires
            eq_reflects::<T>(),
        ensures
            r == self@.contains(*elem),
    {
        let mut i: usize = 0;
        while i < self.vec.len()
            invariant
                0 <= i <= self@.len(),
                eq_reflects::<T>(),
                forall|k: int| 0 <= k < i ==> self@[k] != *elem,
            decreases self@.len() - i,
        {
            if &self.vec[i] == elem {
                proof {
                    assert(self@[i as int] == *elem);
                }
                return true;
            }
            i += 1;
        }
        proof {
            if self@.contains(*elem) {
                let k = choose|k: int| 0 <= k < self@.len() && self@[k] == *elem;
                assert(self@[k] != *elem);
                assert(false);
            }
        }
        false
    }

    pub fn is_empty(&self) -> (r: bool)
        ensures
            r == (self@.len() == 0),
    {
        self.vec.is_empty()
    }

    /// How many elements the set holds.
    pub fn len(&self) -> (r: usize)
        ensures
            r == self@.len(),
    {
        self.vec.len()
    }
}

} // verus!
