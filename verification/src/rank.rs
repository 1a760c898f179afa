//! Linear-time rank counting over the virtual difference matrix.
//!
//! The window must be ascending: rows of the matrix are then non-increasing
//! left to right and columns non-decreasing top to bottom, so one monotone
//! column pointer shared by all rows counts the whole matrix in `O(n)`.

use vstd::prelude::*;

verus! {

use crate::matrix::{
    bounded_vals, count_eq, count_gt, count_lt, gt_pred, is_ascending, lemma_count_split,
    lemma_filter_band, lemma_filter_concat_len, lemma_matrix_take_row, lt_pred, matrix_entry,
    matrix_seq, row_seq, MAX_SAMPLE_MAGNITUDE, MAX_WINDOW_LEN,
};
use vstd::arithmetic::mul::{
    lemma_mul_inequality, lemma_mul_is_distributive_add_other_way, lemma_mul_upper_bound,
};

/// Rank partition: the entries strictly above, equal to, and strictly below
/// any pivot together exhaust the matrix.
pub proof fn lemma_rank_partition(s: Seq<i64>, g: i64)
    ensures
        count_gt(matrix_seq(s), g) + count_eq(matrix_seq(s), g) + count_lt(matrix_seq(s), g)
            == s.len() * s.len(),
{
    lemma_count_split(matrix_seq(s), g);
}

/// Number of matrix entries strictly greater than `guard` (`rank+`).
pub fn n_greater(window: &Vec<i64>, guard: i64) -> (r: usize)
    requires
        is_ascending(window@),
        bounded_vals(window@),
        window@.len() <= MAX_WINDOW_LEN,
    ensures
        r == count_gt(matrix_seq(window@), guard),
        r <= window@.len() * window@.len(),
{
    let n = window.len();
    let ghost w = window@;
    let ghost m = matrix_seq(w);
    let mut total: usize = 0;
    let mut c: usize = 0;
    let mut i: usize = 0;
    proof {
        assert(m.take(0) =~= Seq::<i64>::empty());
        reveal(Seq::filter);
    }
    while i < n
        invariant
            i <= n,
            c <= n,
            n == w.len(),
            w == window@,
            m == matrix_seq(w),
            is_ascending(w),
            bounded_vals(w),
            n <= MAX_WINDOW_LEN,
            total == count_gt(m.take((i * n) as int), guard),
            total <= i * n,
            i < n ==> forall|j: int| 0 <= j < c ==> matrix_entry(w, i as int, j) > guard,
        decreases n - i,
    {
        proof {
            assert(0 <= i * n && i * n + n <= n * n) by (nonlinear_arith)
                requires
                    0 <= i < n,
            ;
        }
        while c < n && window[i] - window[c] > guard
            invariant
                i < n,
                c <= n,
                n == w.len(),
                w == window@,
                is_ascending(w),
                bounded_vals(w),
                forall|j: int| 0 <= j < c ==> matrix_entry(w, i as int, j) > guard,
            decreases n - c,
        {
            proof {
                assert(matrix_entry(w, i as int, c as int) == w[i as int] - w[c as int]);
            }
            c = c + 1;
        }
        let ghost row = row_seq(w, i as int);
        proof {
            assert forall|j: int| c <= j < n implies !(gt_pred(guard)(row[j])) by {
                assert(w[j] >= w[c as int]);
                if c < n {
                    assert(w[i as int] - w[c as int] <= guard);
                }
            }
            assert forall|j: int| 0 <= j < c implies gt_pred(guard)(row[j]) by {
                assert(matrix_entry(w, i as int, j) > guard);
            }
            lemma_filter_band(row, gt_pred(guard), 0, c as int);
            assert(row.filter(gt_pred(guard)).len() == c);
            lemma_matrix_take_row(w, i as int);
            lemma_filter_concat_len(m.take((i * n) as int), row, gt_pred(guard));
            lemma_mul_is_distributive_add_other_way(n as int, i as int, 1);
            assert((i + 1) * n == i * n + n);
            lemma_mul_inequality((i + 1) as int, n as int, n as int);
            lemma_mul_upper_bound(n as int, MAX_WINDOW_LEN as int, n as int, MAX_WINDOW_LEN as int);
            if i + 1 < n {
                assert forall|j: int| 0 <= j < c implies #[trigger] matrix_entry(w, i + 1, j) > guard by {
                    assert(w[i as int] <= w[i + 1]);
                    assert(matrix_entry(w, i as int, j) > guard);
                    assert(-MAX_SAMPLE_MAGNITUDE <= w[j] <= MAX_SAMPLE_MAGNITUDE);
                    assert(-MAX_SAMPLE_MAGNITUDE <= w[i + 1] <= MAX_SAMPLE_MAGNITUDE);
                }
            }
        }
        total = total + c;
        i = i + 1;
    }
    proof {
        assert(m.take((n * n) as int) =~= m);
    }
    total
}

/// Number of matrix entries strictly less than `guard` (`rank-`).
pub fn n_smaller(window: &Vec<i64>, guard: i64) -> (r: usize)
    requires
        is_ascending(window@),
        bounded_vals(window@),
        window@.len() <= MAX_WINDOW_LEN,
    ensures
        r == count_lt(matrix_seq(window@), guard),
        r <= window@.len() * window@.len(),
{
    let n = window.len();
    let ghost w = window@;
    let ghost m = matrix_seq(w);
    let mut total: usize = 0;
    let mut c: usize = 0;
    let mut i: usize = 0;
    proof {
        assert(m.take(0) =~= Seq::<i64>::empty());
        reveal(Seq::filter);
    }
    while i < n
        invariant
            i <= n,
            c <= n,
            n == w.len(),
            w == window@,
            m == matrix_seq(w),
            is_ascending(w),
            bounded_vals(w),
            n <= MAX_WINDOW_LEN,
            total == count_lt(m.take((i * n) as int), guard),
            total <= i * n,
            i < n ==> forall|j: int| 0 <= j < c ==> matrix_entry(w, i as int, j) >= guard,
        decreases n - i,
    {
        proof {
            assert(0 <= i * n && i * n + n <= n * n) by (nonlinear_arith)
                requires
                    0 <= i < n,
            ;
        }
        while c < n && window[i] - window[c] >= guard
            invariant
                i < n,
                c <= n,
                n == w.len(),
                w == window@,
                is_ascending(w),
                bounded_vals(w),
                forall|j: int| 0 <= j < c ==> matrix_entry(w, i as int, j) >= guard,
            decreases n - c,
        {
            proof {
                assert(matrix_entry(w, i as int, c as int) == w[i as int] - w[c as int]);
            }
            c = c + 1;
        }
        let ghost row = row_seq(w, i as int);
        proof {
            assert forall|j: int| 0 <= j < c implies !(lt_pred(guard)(row[j])) by {
                assert(matrix_entry(w, i as int, j) >= guard);
            }
            assert forall|j: int| c <= j < n implies lt_pred(guard)(row[j]) by {
                assert(w[j] >= w[c as int]);
                if c < n {
                    assert(w[i as int] - w[c as int] < guard);
                }
            }
            lemma_filter_band(row, lt_pred(guard), c as int, n as int);
            assert(row.filter(lt_pred(guard)).len() == n - c);
            lemma_matrix_take_row(w, i as int);
            lemma_filter_concat_len(m.take((i * n) as int), row, lt_pred(guard));
            lemma_mul_is_distributive_add_other_way(n as int, i as int, 1);
            assert((i + 1) * n == i * n + n);
            lemma_mul_inequality((i + 1) as int, n as int, n as int);
            lemma_mul_upper_bound(n as int, MAX_WINDOW_LEN as int, n as int, MAX_WINDOW_LEN as int);
            if i + 1 < n {
                assert forall|j: int| 0 <= j < c implies #[trigger] matrix_entry(w, i + 1, j) >= guard by {
                    assert(w[i as int] <= w[i + 1]);
                    assert(matrix_entry(w, i as int, j) >= guard);
                    assert(-MAX_SAMPLE_MAGNITUDE <= w[j] <= MAX_SAMPLE_MAGNITUDE);
                    assert(-MAX_SAMPLE_MAGNITUDE <= w[i + 1] <= MAX_SAMPLE_MAGNITUDE);
                }
            }
        }
        total = total + (n - c);
        i = i + 1;
    }
    proof {
        assert(m.take((n * n) as int) =~= m);
    }
    total
}

} // verus!
