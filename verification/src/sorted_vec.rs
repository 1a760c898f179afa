//! The ascending mirror of the sample window.
//!
//! Ascending order is a caller contract, not a checked invariant: the methods
//! require it and preserve it.

use vstd::prelude::*;

verus! {

use crate::matrix::{is_ascending, lemma_insert_multiset};
use crate::median::RawMedian;

/// A vector kept in ascending order by its callers.
pub struct SortedVec(pub Vec<i64>);

impl SortedVec {
    /// The middle element, or middle pair, of the vector.
    pub fn median(&self) -> (r: Option<RawMedian>)
        ensures
            self.0@.len() == 0 ==> r is None,
            self.0@.len() % 2 == 1 ==> r == Some(
                RawMedian::Odd(self.0@[self.0@.len() as int / 2]),
            ),
            self.0@.len() % 2 == 0 && self.0@.len() > 0 ==> r == Some(
                RawMedian::Even(
                    self.0@[self.0@.len() as int / 2 - 1],
                    self.0@[self.0@.len() as int / 2],
                ),
            ),
    {
        let n = self.0.len();
        if n == 0 {
            None
        } else if n % 2 == 1 {
            Some(RawMedian::Odd(self.0[n / 2]))
        } else {
            let i = n / 2;
            Some(RawMedian::Even(self.0[i - 1], self.0[i]))
        }
    }

    /// Insert `value` at its ascending position (binary search plus shift).
    pub fn insert_sorted(&mut self, value: i64)
        requires
            is_ascending(old(self).0@),
            old(self).0@.len() < usize::MAX,
        ensures
            is_ascending(final(self).0@),
            final(self).0@.to_multiset() == old(self).0@.to_multiset().insert(value),
            final(self).0@.len() == old(self).0@.len() + 1,
            final(self).0@ == old(self).0@.insert(
                old(self).0@.filter(crate::matrix::lt_pred(value)).len() as int,
                value,
            ),
    {
        let ghost orig = self.0@;
        let n = self.0.len();
        let mut lo: usize = 0;
        let mut hi: usize = n;
        while lo < hi
            invariant
                lo <= hi <= n,
                n == self.0@.len(),
                self.0@ == orig,
                is_ascending(orig),
                forall|a: int| 0 <= a < lo ==> orig[a] < value,
                forall|a: int| hi <= a < n ==> orig[a] >= value,
            decreases hi - lo,
        {
            let mid = lo + (hi - lo) / 2;
            if self.0[mid] < value {
                proof {
                    assert forall|a: int| 0 <= a < mid + 1 implies orig[a] < value by {
                        assert(orig[a] <= orig[mid as int]);
                    }
                }
                lo = mid + 1;
            } else {
                proof {
                    assert forall|a: int| mid <= a < n implies orig[a] >= value by {
                        assert(orig[mid as int] <= orig[a]);
                    }
                }
                hi = mid;
            }
        }
        self.0.insert(lo, value);
        proof {
            lemma_insert_multiset(orig, lo as int, value);
            assert forall|i: int, j: int|
                0 <= i < j < self.0@.len() implies #[trigger] self.0@[i] <= #[trigger] self.0@[j] by {
                assert(self.0@ == orig.insert(lo as int, value));
                if i < lo && j < lo {
                    assert(orig[i] <= orig[j]);
                } else if i < lo && j > lo {
                    assert(orig[i] < value);
                    assert(orig[j - 1] >= value);
                } else if i > lo && j > lo {
                    assert(orig[i - 1] <= orig[j - 1]);
                } else if i == lo && j > lo {
                    assert(orig[j - 1] >= value);
                } else if i < lo && j == lo {
                    assert(orig[i] < value);
                }
            }
            crate::matrix::lemma_filter_band(orig, crate::matrix::lt_pred(value), 0, lo as int);
            assert(orig.filter(crate::matrix::lt_pred(value)).len() == lo);
        }
    }

    /// Remove one occurrence of `value`, searching from the right so that the
    /// last matching occurrence leaves.
    pub fn remove_value(&mut self, value: i64) -> (r: Option<i64>)
        requires
            is_ascending(old(self).0@),
        ensures
            is_ascending(final(self).0@),
            old(self).0@.contains(value) ==> {
                &&& r == Some(value)
                &&& final(self).0@.to_multiset() == old(self).0@.to_multiset().remove(value)
                &&& final(self).0@.len() + 1 == old(self).0@.len()
            },
            !old(self).0@.contains(value) ==> r is None && final(self).0@ == old(self).0@,
    {
        broadcast use vstd::seq_lib::group_to_multiset_ensures;

        let ghost orig = self.0@;
        let n = self.0.len();
        let mut i: usize = n;
        while i > 0
            invariant
                i <= n,
                n == self.0@.len(),
                self.0@ == orig,
                orig == old(self).0@,
                is_ascending(orig),
                forall|j: int| i <= j < n ==> orig[j] != value,
            decreases i,
        {
            i = i - 1;
            if self.0[i] == value {
                let removed = self.0.remove(i);
                proof {
                    assert(orig[i as int] == value);
                    assert(orig.contains(value));
                    vstd::seq_lib::to_multiset_remove(orig, i as int);
                    assert(orig.remove(i as int).to_multiset() == orig.to_multiset().remove(
                        orig[i as int],
                    ));
                    assert(self.0@ == orig.remove(i as int));
                    assert forall|a: int, b: int|
                        0 <= a < b < self.0@.len() implies #[trigger] self.0@[a]
                        <= #[trigger] self.0@[b] by {
                        if b < i {
                            assert(orig[a] <= orig[b]);
                        } else if a >= i {
                            assert(orig[a + 1] <= orig[b + 1]);
                        } else {
                            assert(orig[a] <= orig[b + 1]);
                        }
                    }
                }
                return Some(removed);
            }
        }
        proof {
            if orig.contains(value) {
                let w = choose|w: int| 0 <= w < orig.len() && orig[w] == value;
                assert(orig[w] != value);
            }
        }
        None
    }
}

} // verus!
