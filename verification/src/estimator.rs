//! The Qn estimator of scale over a bounded sliding sample window.

use vstd::prelude::*;

verus! {

use crate::matrix::{
    bounded_vals, is_ascending, kth_smallest, lemma_ascending_unique, lemma_sort64_ensures,
    matrix_seq, sort64, MAX_SAMPLE_MAGNITUDE, MAX_WINDOW_LEN,
};
use crate::median::RawMedian;
use crate::scale::ScaleEstimate;
use crate::select::select_kth_statistic;
use crate::sorted_vec::SortedVec;
use crate::window::Window;
use vstd::arithmetic::div_mod::{
    lemma_fundamental_div_mod, lemma_fundamental_div_mod_converse,
    lemma_mod_division_less_than_divisor,
};

/// The Qn target rank: the classical Qn order statistic over the differences
/// with `i < j`, re-expressed in the full signed difference matrix.
pub open spec fn qn_rank(n: int) -> int {
    let h = n / 2 + 1;
    h * (h - 1) / 2 + n + n * (n - 1) / 2
}

/// One push into a bounded FIFO: at capacity the oldest sample leaves.
pub open spec fn fifo_push(s: Seq<i64>, cap: int, v: i64) -> Seq<i64> {
    if s.len() >= cap {
        s.drop_first().push(v)
    } else {
        s.push(v)
    }
}

/// Repeated `fifo_push`, oldest pushed value first.
pub open spec fn fifo_extend(s: Seq<i64>, cap: int, vs: Seq<i64>) -> Seq<i64>
    decreases vs.len(),
{
    if vs.len() == 0 {
        s
    } else {
        fifo_extend(fifo_push(s, cap, vs.first()), cap, vs.drop_first())
    }
}

/// The Qn target rank lies within the matrix: `1 <= qn_rank(n) <= n * n`.
pub proof fn lemma_qn_rank_bounds(n: int)
    requires
        1 <= n,
    ensures
        1 <= qn_rank(n) <= n * n,
        qn_rank(n) == (n / 2 + 1) * (n / 2) / 2 + n + n * (n - 1) / 2,
{
    let m = n / 2;
    let h = m + 1;
    lemma_fundamental_div_mod(n, 2);
    lemma_mod_division_less_than_divisor(n, 2);
    let r = n % 2;
    assert(h * (h - 1) == (m + 1) * m) by (nonlinear_arith)
        requires
            h == m + 1,
    ;
    // (m + 1) * m is even
    lemma_fundamental_div_mod(m, 2);
    lemma_mod_division_less_than_divisor(m, 2);
    let u = m / 2;
    if m % 2 == 0 {
        assert((m + 1) * m == ((m + 1) * u) * 2 + 0) by (nonlinear_arith)
            requires
                m == 2 * u,
        ;
        lemma_fundamental_div_mod_converse((m + 1) * m, 2, (m + 1) * u, 0);
    } else {
        assert((m + 1) * m == (u + 1) * m * 2 + 0) by (nonlinear_arith)
            requires
                m == 2 * u + 1,
        ;
        lemma_fundamental_div_mod_converse((m + 1) * m, 2, (u + 1) * m, 0);
    }
    let ta = (m + 1) * m / 2;
    assert(2 * ta == (m + 1) * m);
    // n * (n - 1) is even
    if r == 0 {
        assert(n * (n - 1) == m * (n - 1) * 2 + 0) by (nonlinear_arith)
            requires
                n == 2 * m,
        ;
        lemma_fundamental_div_mod_converse(n * (n - 1), 2, m * (n - 1), 0);
    } else {
        assert(n * (n - 1) == n * m * 2 + 0) by (nonlinear_arith)
            requires
                n == 2 * m + 1,
        ;
        lemma_fundamental_div_mod_converse(n * (n - 1), 2, n * m, 0);
    }
    let tb = n * (n - 1) / 2;
    assert(2 * tb == n * (n - 1));
    assert(2 * ta + 2 * n + 2 * tb <= 2 * (n * n) && 0 <= 2 * ta && 0 <= 2 * tb)
        by (nonlinear_arith)
        requires
            2 * ta == (m + 1) * m,
            2 * tb == n * (n - 1),
            n == 2 * m + r,
            0 <= r < 2,
            n >= 1,
    ;
}

/// `Qn` estimator of scale.
///
/// Holds the chronological window together with its ascending mirror; both
/// always describe the same multiset of samples.
pub struct QnScaleEstimator {
    chronological: Window,
    sorted: SortedVec,
}

impl QnScaleEstimator {
    /// The samples in arrival order, oldest first.
    pub closed spec fn samples(&self) -> Seq<i64> {
        self.chronological@
    }

    /// The fixed window capacity.
    pub closed spec fn capacity(&self) -> int {
        self.chronological.cap()
    }

    /// The estimator's invariant: the sorted mirror is ascending and holds the
    /// same multiset of values as the chronological window, every sample is
    /// within the sample bound, and the window respects its capacity.
    pub closed spec fn wf(&self) -> bool {
        &&& self.chronological.wf()
        &&& is_ascending(self.sorted.0@)
        &&& self.sorted.0@.to_multiset() == self.chronological@.to_multiset()
        &&& bounded_vals(self.chronological@)
        &&& self.capacity() <= MAX_WINDOW_LEN
    }

    /// The ascending mirror is exactly the sorted sample sequence.
    proof fn lemma_sorted_mirror(&self)
        requires
            self.wf(),
        ensures
            self.sorted.0@ == sort64(self.samples()),
            self.sorted.0@.len() == self.samples().len(),
            bounded_vals(self.sorted.0@),
            self.samples().len() <= self.capacity() <= MAX_WINDOW_LEN,
            1 <= self.capacity(),
    {
        broadcast use vstd::seq_lib::group_to_multiset_ensures;

        self.chronological.lemma_wf_bounds();
        lemma_sort64_ensures(self.samples());
        lemma_ascending_unique(self.sorted.0@, sort64(self.samples()));
        assert forall|i: int|
            0 <= i < self.sorted.0@.len() implies -MAX_SAMPLE_MAGNITUDE <= #[trigger] self.sorted.0@[i]
            <= MAX_SAMPLE_MAGNITUDE by {
            assert(self.sorted.0@.to_multiset().count(self.sorted.0@[i]) > 0);
            assert(self.samples().contains(self.sorted.0@[i]));
            let j = choose|j: int|
                0 <= j < self.samples().len() && self.samples()[j] == self.sorted.0@[i];
            assert(-MAX_SAMPLE_MAGNITUDE <= self.samples()[j] <= MAX_SAMPLE_MAGNITUDE);
        }
    }

    /// A new estimator with the specified window capacity.
    pub fn new(window_len: usize) -> (r: QnScaleEstimator)
        requires
            1 <= window_len <= MAX_WINDOW_LEN,
        ensures
            r.wf(),
            r.samples() == Seq::<i64>::empty(),
            r.capacity() == window_len,
    {
        let r = QnScaleEstimator {
            chronological: Window::with_capacity(window_len),
            sorted: SortedVec(Vec::new()),
        };
        proof {
            assert(r.sorted.0@ =~= r.chronological@);
        }
        r
    }

    /// Clear the current sample window.
    pub fn clear(&mut self)
        requires
            old(self).wf(),
        ensures
            final(self).wf(),
            final(self).samples() == Seq::<i64>::empty(),
            final(self).capacity() == old(self).capacity(),
    {
        self.chronological.clear();
        self.sorted.0.clear();
        proof {
            assert(self.sorted.0@ =~= self.chronological@);
        }
    }

    /// Push the upcoming value to the estimator.
    ///
    /// If the window is already at capacity, the oldest value is evicted and
    /// no longer affects the estimator. `O(window length)` because of the
    /// sorted-mirror maintenance.
    pub fn push(&mut self, value: i64)
        requires
            old(self).wf(),
            -MAX_SAMPLE_MAGNITUDE <= value <= MAX_SAMPLE_MAGNITUDE,
        ensures
            final(self).wf(),
            final(self).capacity() == old(self).capacity(),
            final(self).samples() == fifo_push(old(self).samples(), old(self).capacity(), value),
    {
        broadcast use vstd::seq_lib::group_to_multiset_ensures;

        let ghost old_window = self.chronological@;
        proof {
            self.lemma_sorted_mirror();
        }
        let popped = self.chronological.push(value);
        if let Some(popped_value) = popped {
            proof {
                assert(old_window[0] == popped_value);
                assert(old_window.contains(popped_value));
                assert(old_window.to_multiset().count(popped_value) > 0);
                assert(self.sorted.0@.contains(popped_value));
            }
            let removed = self.sorted.remove_value(popped_value);
            proof {
                assert(removed == Some(popped_value));
                vstd::seq_lib::to_multiset_remove(old_window, 0);
                assert(self.sorted.0@.to_multiset() == old_window.drop_first().to_multiset());
            }
        }
        self.sorted.insert_sorted(value);
        proof {
            if old_window.len() == old(self).capacity() {
                vstd::seq_lib::to_multiset_build(old_window.drop_first(), value);
            } else {
                vstd::seq_lib::to_multiset_build(old_window, value);
            }
            assert forall|i: int|
                0 <= i < self.chronological@.len() implies -MAX_SAMPLE_MAGNITUDE
                <= #[trigger] self.chronological@[i] <= MAX_SAMPLE_MAGNITUDE by {
                if old_window.len() == old(self).capacity() {
                    assert(self.chronological@ == old_window.drop_first().push(value));
                } else {
                    assert(self.chronological@ == old_window.push(value));
                }
            }
        }
    }

    /// Push multiple values to the estimator, in order.
    pub fn extend(&mut self, values: &Vec<i64>)
        requires
            old(self).wf(),
            bounded_vals(values@),
        ensures
            final(self).wf(),
            final(self).capacity() == old(self).capacity(),
            final(self).samples() == fifo_extend(
                old(self).samples(),
                old(self).capacity(),
                values@,
            ),
    {
        let mut i: usize = 0;
        proof {
            assert(values@.skip(0) =~= values@);
        }
        while i < values.len()
            invariant
                i <= values@.len(),
                self.wf(),
                self.capacity() == old(self).capacity(),
                bounded_vals(values@),
                fifo_extend(old(self).samples(), old(self).capacity(), values@) == fifo_extend(
                    self.samples(),
                    self.capacity(),
                    values@.skip(i as int),
                ),
            decreases values@.len() - i,
        {
            let ghost before = self.samples();
            self.push(values[i]);
            proof {
                assert(values@.skip(i as int).first() == values@[i as int]);
                assert(values@.skip(i as int).drop_first() =~= values@.skip(i + 1));
                assert(fifo_extend(before, self.capacity(), values@.skip(i as int)) == fifo_extend(
                    self.samples(),
                    self.capacity(),
                    values@.skip(i + 1),
                ));
            }
            i = i + 1;
        }
        proof {
            assert(values@.skip(values@.len() as int) =~= Seq::<i64>::empty());
        }
    }

    /// Calculate the raw estimate of scale.
    ///
    /// Returns the sample count and the Qn order statistic of the difference
    /// matrix of the current samples, or `None` when the window is empty.
    pub fn estimate(&self) -> (r: Option<ScaleEstimate>)
        requires
            self.wf(),
        ensures
            self.samples().len() == 0 <==> r is None,
            self.samples().len() > 0 ==> (r matches Some(e) && e.n_samples == self.samples().len()
                && e.statistic == kth_smallest(
                matrix_seq(sort64(self.samples())),
                qn_rank(self.samples().len() as int),
            )),
    {
        proof {
            self.lemma_sorted_mirror();
        }
        let n = self.sorted.0.len();
        if n == 0 {
            return None;
        }
        let h = n / 2 + 1;
        proof {
            lemma_qn_rank_bounds(n as int);
            vstd::arithmetic::mul::lemma_mul_upper_bound(
                (h - 1) as int,
                MAX_WINDOW_LEN as int,
                h as int,
                MAX_WINDOW_LEN as int + 1,
            );
            vstd::arithmetic::mul::lemma_mul_upper_bound(
                n as int,
                MAX_WINDOW_LEN as int,
                (n - 1) as int,
                MAX_WINDOW_LEN as int,
            );
            vstd::arithmetic::mul::lemma_mul_upper_bound(
                n as int,
                MAX_WINDOW_LEN as int,
                n as int,
                MAX_WINDOW_LEN as int,
            );
        }
        let k = h * (h - 1) / 2 + n + n * (n - 1) / 2;
        let statistic = select_kth_statistic(&self.sorted.0, k);
        Some(ScaleEstimate { n_samples: n, statistic })
    }

    /// Obtain the sample median in constant time, or `None` when the window
    /// is empty.
    pub fn median(&self) -> (r: Option<RawMedian>)
        requires
            self.wf(),
        ensures
            self.samples().len() == 0 <==> r is None,
            self.samples().len() % 2 == 1 ==> r == Some(
                RawMedian::Odd(sort64(self.samples())[self.samples().len() as int / 2]),
            ),
            self.samples().len() % 2 == 0 && self.samples().len() > 0 ==> r == Some(
                RawMedian::Even(
                    sort64(self.samples())[self.samples().len() as int / 2 - 1],
                    sort64(self.samples())[self.samples().len() as int / 2],
                ),
            ),
            r matches Some(med) ==> med.wf(),
    {
        proof {
            self.lemma_sorted_mirror();
        }
        self.sorted.median()
    }
}

} // verus!
