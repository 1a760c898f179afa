//! Extraction of the candidate list `L`: every matrix entry strictly between
//! two pivot bounds, found in `O(n + |output|)` with the same monotone
//! two-pointer sweep as the rank counters.

use vstd::prelude::*;

verus! {

use crate::matrix::{
    between_pred, bounded_vals, is_ascending, lemma_filter_band, lemma_matrix_take_row,
    matrix_entry, matrix_seq, row_seq, MAX_SAMPLE_MAGNITUDE, MAX_WINDOW_LEN,
};
use vstd::arithmetic::mul::lemma_mul_is_distributive_add_other_way;

/// Collect into `into_buffer` every entry `v` of the virtual difference
/// matrix with `min < v < max`, row by row, left to right within a row.
pub fn pick_list(window: &Vec<i64>, min: i64, max: i64, into_buffer: &mut Vec<i64>)
    requires
        is_ascending(window@),
        bounded_vals(window@),
        window@.len() <= MAX_WINDOW_LEN,
    ensures
        final(into_buffer)@ == matrix_seq(window@).filter(between_pred(min, max)),
{
    into_buffer.clear();
    let n = window.len();
    let ghost w = window@;
    let ghost m = matrix_seq(w);
    let ghost pred = between_pred(min, max);
    let mut c: usize = 0;
    let mut i: usize = 0;
    proof {
        assert(m.take(0) =~= Seq::<i64>::empty());
        reveal(Seq::filter);
    }
    while i < n
        invariant
            i <= n,
            c <= n,
            n == w.len(),
            w == window@,
            m == matrix_seq(w),
            pred == between_pred(min, max),
            is_ascending(w),
            bounded_vals(w),
            n <= MAX_WINDOW_LEN,
            into_buffer@ == m.take((i * n) as int).filter(pred),
            i < n ==> forall|j: int| 0 <= j < c ==> matrix_entry(w, i as int, j) >= max,
        decreases n - i,
    {
        proof {
            assert(0 <= i * n && i * n + n <= n * n) by (nonlinear_arith)
                requires
                    0 <= i < n,
            ;
        }
        while c < n && window[i] - window[c] >= max
            invariant
                i < n,
                c <= n,
                n == w.len(),
                w == window@,
                is_ascending(w),
                bounded_vals(w),
                forall|j: int| 0 <= j < c ==> matrix_entry(w, i as int, j) >= max,
            decreases n - c,
        {
            proof {
                assert(matrix_entry(w, i as int, c as int) == w[i as int] - w[c as int]);
            }
            c = c + 1;
        }
        let ghost row = row_seq(w, i as int);
        let ghost row_prefix = into_buffer@;
        let mut j = c;
        while j < n && window[i] - window[j] > min
            invariant
                i < n,
                c <= j <= n,
                c <= n,
                n == w.len(),
                w == window@,
                row == row_seq(w, i as int),
                is_ascending(w),
                bounded_vals(w),
                c < n ==> matrix_entry(w, i as int, c as int) < max,
                into_buffer@ == row_prefix + row.subrange(c as int, j as int),
                forall|jj: int| c <= jj < j ==> min < #[trigger] matrix_entry(w, i as int, jj) < max,
            decreases n - j,
        {
            proof {
                assert(matrix_entry(w, i as int, j as int) == w[i as int] - w[j as int]);
                assert(w[c as int] <= w[j as int]);
                assert(row.subrange(c as int, j + 1) =~= row.subrange(c as int, j as int).push(
                    row[j as int],
                ));
            }
            into_buffer.push(window[i] - window[j]);
            j = j + 1;
        }
        proof {
            assert forall|jj: int| 0 <= jj < c implies !(pred(row[jj])) by {
                assert(matrix_entry(w, i as int, jj) >= max);
            }
            assert forall|jj: int| c <= jj < j implies pred(row[jj]) by {
                assert(min < matrix_entry(w, i as int, jj) < max);
            }
            assert forall|jj: int| j <= jj < n implies !(pred(row[jj])) by {
                assert(w[jj] >= w[j as int]);
                if j < n {
                    assert(w[i as int] - w[j as int] <= min);
                }
            }
            lemma_filter_band(row, pred, c as int, j as int);
            lemma_matrix_take_row(w, i as int);
            Seq::filter_distributes_over_add(m.take((i * n) as int), row, pred);
            lemma_mul_is_distributive_add_other_way(n as int, i as int, 1);
            assert((i + 1) * n == i * n + n);
            if i + 1 < n {
                assert forall|jj: int| 0 <= jj < c implies #[trigger] matrix_entry(w, i + 1, jj)
                    >= max by {
                    assert(w[i as int] <= w[i + 1]);
                    assert(matrix_entry(w, i as int, jj) >= max);
                    assert(-MAX_SAMPLE_MAGNITUDE <= w[jj] <= MAX_SAMPLE_MAGNITUDE);
                    assert(-MAX_SAMPLE_MAGNITUDE <= w[i + 1] <= MAX_SAMPLE_MAGNITUDE);
                }
            }
        }
        i = i + 1;
    }
    proof {
        assert(m.take((n * n) as int) =~= m);
    }
}

} // verus!
