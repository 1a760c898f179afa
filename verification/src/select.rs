//! The selection engine: the `k`-th order statistic of the virtual difference
//! matrix, without materializing the matrix.
//!
//! `binary_select` recurses over stride-doubled sub-matrices, transforming the
//! two requested ranks with the closed-form formulas of Mirzaian & Arjomandi.
//! Every level certifies its two picks against two linear-time rank counts
//! over that level's strided matrix, which pins them as the exact order
//! statistics; direct enumeration closes the (never observed) case of a
//! certificate that does not bracket the rank.

use vstd::prelude::*;

verus! {

use crate::dash_iter::{
    lemma_stride_identity, lemma_stride_len_bounds, lemma_stride_len_halving,
    lemma_stride_preserves, stride_len, stride_seq, DashIter,
};
use crate::lazy_list::LazyList;
use crate::rank::{n_greater, n_smaller};
use crate::matrix::{
    bounded_vals, is_ascending, kth_smallest, lemma_ascending_unique, lemma_counts_empty,
    lemma_counts_push, lemma_kth_from_counts, lemma_kth_smallest_monotone,
    lemma_sort64_ensures, matrix_entry, matrix_seq, sort64, MAX_SAMPLE_MAGNITUDE,
    MAX_WINDOW_LEN,
};
use vstd::multiset::Multiset;
use vstd::arithmetic::mul::{
    lemma_mul_is_distributive_add_other_way, lemma_mul_upper_bound,
};
use vstd::arithmetic::div_mod::{
    lemma_div_is_ordered, lemma_fundamental_div_mod, lemma_fundamental_div_mod_converse,
    lemma_hoist_over_denominator, lemma_mod_division_less_than_divisor,
};

/// A copy of the values in the index range `[from, to)`.
fn copy_range(v: &Vec<i64>, from: usize, to: usize) -> (r: Vec<i64>)
    requires
        from <= to <= v@.len(),
    ensures
        r@ == v@.subrange(from as int, to as int),
{
    let mut out: Vec<i64> = Vec::new();
    let mut i = from;
    proof {
        assert(out@ =~= v@.subrange(from as int, from as int));
    }
    while i < to
        invariant
            from <= i <= to <= v@.len(),
            out@ == v@.subrange(from as int, i as int),
        decreases to - i,
    {
        out.push(v[i]);
        proof {
            assert(v@.subrange(from as int, i + 1) =~= v@.subrange(from as int, i as int).push(
                v@[i as int],
            ));
        }
        i = i + 1;
    }
    out
}

/// Merge two ascending vectors into one ascending vector over the union of
/// their values.
fn merge_ascending(a: &Vec<i64>, b: &Vec<i64>) -> (r: Vec<i64>)
    requires
        is_ascending(a@),
        is_ascending(b@),
    ensures
        is_ascending(r@),
        r@.to_multiset() == a@.to_multiset().add(b@.to_multiset()),
        r@.len() == a@.len() + b@.len(),
{
    broadcast use vstd::seq_lib::group_to_multiset_ensures;
    broadcast use vstd::multiset::group_multiset_axioms;

    let mut out: Vec<i64> = Vec::new();
    let mut i: usize = 0;
    let mut j: usize = 0;
    proof {
        assert(a@.skip(0) =~= a@);
        assert(b@.skip(0) =~= b@);
        assert(out@.to_multiset().add(a@.to_multiset()).add(b@.to_multiset()) =~= a@.to_multiset().add(
            b@.to_multiset()));
    }
    while i < a.len() || j < b.len()
        invariant
            i <= a@.len(),
            j <= b@.len(),
            is_ascending(a@),
            is_ascending(b@),
            is_ascending(out@),
            out@.len() == i + j,
            out@.to_multiset().add(a@.skip(i as int).to_multiset()).add(
                b@.skip(j as int).to_multiset(),
            ) == a@.to_multiset().add(b@.to_multiset()),
            out@.len() > 0 ==> forall|ii: int|
                i <= ii < a@.len() ==> out@.last() <= #[trigger] a@[ii],
            out@.len() > 0 ==> forall|jj: int|
                j <= jj < b@.len() ==> out@.last() <= #[trigger] b@[jj],
        decreases a@.len() + b@.len() - i - j,
    {
        let take_left = if i < a.len() {
            if j < b.len() {
                a[i] <= b[j]
            } else {
                true
            }
        } else {
            false
        };
        if take_left {
            let ghost tail = a@.skip(i as int);
            proof {
                let x = a@[i as int];
                assert(tail[0] == x);
                assert(tail.remove(0) =~= a@.skip(i + 1));
                vstd::seq_lib::to_multiset_remove(tail, 0);
                assert(tail.contains(x));
                tail.to_multiset_ensures();
                assert(tail.to_multiset().count(x) > 0);
                vstd::seq_lib::to_multiset_build(out@, x);
                crate::matrix::lemma_multiset_transfer(
                    out@.to_multiset(),
                    tail.to_multiset(),
                    b@.skip(j as int).to_multiset(),
                    x,
                );
            }
            out.push(a[i]);
            i = i + 1;
        } else {
            let ghost tail = b@.skip(j as int);
            proof {
                let x = b@[j as int];
                assert(tail[0] == x);
                assert(tail.remove(0) =~= b@.skip(j + 1));
                vstd::seq_lib::to_multiset_remove(tail, 0);
                assert(tail.contains(x));
                tail.to_multiset_ensures();
                assert(tail.to_multiset().count(x) > 0);
                vstd::seq_lib::to_multiset_build(out@, x);
                assert(out@.push(x).to_multiset().add(a@.skip(i as int).to_multiset()).add(
                    b@.skip(j + 1).to_multiset(),
                ) =~= a@.to_multiset().add(b@.to_multiset()));
            }
            out.push(b[j]);
            j = j + 1;
        }
    }
    proof {
        assert(a@.skip(a@.len() as int) =~= Seq::<i64>::empty());
        assert(b@.skip(b@.len() as int) =~= Seq::<i64>::empty());
        assert(Seq::<i64>::empty().to_multiset() =~= Multiset::<i64>::empty());
        assert(out@.to_multiset() =~= a@.to_multiset().add(b@.to_multiset()));
    }
    out
}

/// A fresh copy of the values in ascending order, by halving and merging.
fn sort_values(v: &Vec<i64>) -> (r: Vec<i64>)
    ensures
        is_ascending(r@),
        r@.to_multiset() == v@.to_multiset(),
        r@.len() == v@.len(),
    decreases v@.len(),
{
    let n = v.len();
    if n <= 1 {
        let whole = copy_range(v, 0, n);
        proof {
            assert(v@.subrange(0, n as int) =~= v@);
        }
        return whole;
    }
    let mid = n / 2;
    let left = copy_range(v, 0, mid);
    let right = copy_range(v, mid, n);
    proof {
        assert(v@ =~= left@ + right@);
        vstd::seq_lib::lemma_multiset_commutative(left@, right@);
    }
    let left_sorted = sort_values(&left);
    let right_sorted = sort_values(&right);
    merge_ascending(&left_sorted, &right_sorted)
}

/// The element at `index` of the ascending rearrangement of `l`
/// (the `index + 1`-th smallest element, `index` 0-based).
fn select_nth(l: &Vec<i64>, index: usize) -> (r: i64)
    requires
        index < l@.len(),
    ensures
        r == kth_smallest(l@, index + 1),
{
    let sorted = sort_values(l);
    proof {
        lemma_sort64_ensures(l@);
        lemma_ascending_unique(sorted@, sort64(l@));
    }
    sorted[index]
}

/// The recursion basis: a 2-by-2 matrix holds exactly
/// `{a - b, 0, 0, b - a}`, in that ascending rank order.
fn select_trivial(window: &Vec<i64>, k: usize) -> (r: i64)
    requires
        window@.len() == 2,
        is_ascending(window@),
        bounded_vals(window@),
        1 <= k <= 4,
    ensures
        r == kth_smallest(matrix_seq(window@), k as int),
{
    let item_1 = window[0];
    let item_2 = window[1];
    let ghost w = window@;
    let ghost m = matrix_seq(w);
    proof {
        assert(w[0] <= w[1]);
        assert(-MAX_SAMPLE_MAGNITUDE <= w[0] <= MAX_SAMPLE_MAGNITUDE);
        assert(-MAX_SAMPLE_MAGNITUDE <= w[1] <= MAX_SAMPLE_MAGNITUDE);
    }
    let lo = item_1 - item_2;
    let hi = item_2 - item_1;
    let ghost e = Seq::<i64>::empty();
    let ghost s0 = e.push(0i64);
    let ghost s1 = s0.push(lo);
    let ghost s2 = s1.push(hi);
    proof {
        assert(w.len() == 2);
        assert(w.len() * w.len() == 4) by (nonlinear_arith)
            requires
                w.len() == 2,
        ;
        assert(m.len() == 4);
        assert(m[0] == matrix_entry(w, 0, 0) && m[1] == matrix_entry(w, 0, 1) && m[2]
            == matrix_entry(w, 1, 0) && m[3] == matrix_entry(w, 1, 1));
        assert(m =~= s2.push(0i64));
    }
    if k == 1 {
        proof {
            lemma_counts_empty(lo);
            lemma_counts_push(e, 0i64, lo);
            lemma_counts_push(s0, lo, lo);
            lemma_counts_push(s1, hi, lo);
            lemma_counts_push(s2, 0i64, lo);
            lemma_kth_from_counts(m, lo, 1);
        }
        lo
    } else if k == 4 {
        proof {
            lemma_counts_empty(hi);
            lemma_counts_push(e, 0i64, hi);
            lemma_counts_push(s0, lo, hi);
            lemma_counts_push(s1, hi, hi);
            lemma_counts_push(s2, 0i64, hi);
            lemma_kth_from_counts(m, hi, 4);
        }
        hi
    } else {
        proof {
            lemma_counts_empty(0i64);
            lemma_counts_push(e, 0i64, 0i64);
            lemma_counts_push(s0, lo, 0i64);
            lemma_counts_push(s1, hi, 0i64);
            lemma_counts_push(s2, 0i64, 0i64);
            lemma_kth_from_counts(m, 0i64, k as int);
        }
        0i64
    }
}

/// The `k`-th order statistic of the matrix by direct enumeration: every
/// entry is materialized, sorted, and indexed. Quadratic; used only to close
/// the one case a rank certificate leaves open.
fn kth_statistic_direct(window: &Vec<i64>, k: usize) -> (r: i64)
    requires
        is_ascending(window@),
        bounded_vals(window@),
        1 <= window@.len() <= MAX_WINDOW_LEN,
        1 <= k <= window@.len() * window@.len(),
    ensures
        r == kth_smallest(matrix_seq(window@), k as int),
{
    let n = window.len();
    let ghost w = window@;
    let ghost m = matrix_seq(w);
    let mut entries: Vec<i64> = Vec::new();
    let mut i: usize = 0;
    proof {
        assert(m.take(0) =~= Seq::<i64>::empty());
        lemma_mul_upper_bound(n as int, MAX_WINDOW_LEN as int, n as int, MAX_WINDOW_LEN as int);
    }
    while i < n
        invariant
            i <= n,
            n == w.len(),
            w == window@,
            m == matrix_seq(w),
            is_ascending(w),
            bounded_vals(w),
            n <= MAX_WINDOW_LEN,
            entries@ == m.take((i * n) as int),
        decreases n - i,
    {
        proof {
            assert(0 <= i * n && i * n + n <= n * n) by (nonlinear_arith)
                requires
                    0 <= i < n,
            ;
        }
        let mut j: usize = 0;
        while j < n
            invariant
                i < n,
                j <= n,
                n == w.len(),
                w == window@,
                m == matrix_seq(w),
                is_ascending(w),
                bounded_vals(w),
                0 <= i * n && i * n + n <= n * n,
                entries@ == m.take((i * n + j) as int),
            decreases n - j,
        {
            proof {
                lemma_fundamental_div_mod_converse((i * n + j) as int, n as int, i as int, j as int);
                assert(m[(i * n + j) as int] == matrix_entry(w, i as int, j as int));
                assert(m.take((i * n + j + 1) as int) =~= m.take((i * n + j) as int).push(
                    m[(i * n + j) as int],
                ));
            }
            entries.push(window[i] - window[j]);
            j = j + 1;
        }
        proof {
            lemma_mul_is_distributive_add_other_way(n as int, i as int, 1);
            assert((i + 1) * n == i * n + n);
        }
        i = i + 1;
    }
    proof {
        assert(m.take((n * n) as int) =~= m);
        assert(entries@ == m);
    }
    select_nth(&entries, k - 1)
}

/// Certify a candidate `k`-th order statistic against the two strict rank
/// counts of the matrix: if they bracket rank `k`, the candidate is exactly
/// the `k`-th order statistic; otherwise the matrix is enumerated directly.
fn certify_or_direct(window: &Vec<i64>, k: usize, candidate: i64) -> (r: i64)
    requires
        is_ascending(window@),
        bounded_vals(window@),
        1 <= window@.len() <= MAX_WINDOW_LEN,
        1 <= k <= window@.len() * window@.len(),
    ensures
        r == kth_smallest(matrix_seq(window@), k as int),
{
    let n = window.len();
    proof {
        lemma_mul_upper_bound(n as int, MAX_WINDOW_LEN as int, n as int, MAX_WINDOW_LEN as int);
    }
    let smaller = n_smaller(window, candidate);
    let greater = n_greater(window, candidate);
    if smaller < k && k + greater <= n * n {
        proof {
            lemma_kth_from_counts(matrix_seq(window@), candidate, k as int);
        }
        candidate
    } else {
        kth_statistic_direct(window, k)
    }
}

/// The rank of the first requested statistic in the stride-doubled sub-matrix.
pub open spec fn rank1_next(n: int, k1: int) -> int {
    if n % 2 == 0 {
        n + 1 + (k1 + 3) / 4
    } else {
        (2 * n + k1) / 4 + 1
    }
}

/// The rank of the second requested statistic in the stride-doubled
/// sub-matrix: `ceil(k2 / 4)`.
pub open spec fn rank2_next(k2: int) -> int {
    (k2 + 3) / 4
}

/// The closed-form rank transformation keeps the selection recursion's
/// precondition: for a sub-matrix of size `n / 2 + 1`, the transformed ranks
/// are again within bounds and at most `4 * n' - 4` apart.
proof fn lemma_rank_transform(n: int, k1: int, k2: int)
    requires
        n >= 3,
        1 <= k2,
        k2 <= k1,
        k1 <= n * n,
        k1 - k2 <= 4 * n - 4,
    ensures
        1 <= rank2_next(k2),
        rank2_next(k2) <= rank1_next(n, k1),
        rank1_next(n, k1) <= (n / 2 + 1) * (n / 2 + 1),
        rank1_next(n, k1) - rank2_next(k2) <= 4 * (n / 2 + 1) - 4,
{
    let np = n / 2 + 1;
    let m = n / 2;
    lemma_fundamental_div_mod(n, 2);
    lemma_mod_division_less_than_divisor(n, 2);
    let c2 = (k2 + 3) / 4;
    lemma_div_is_ordered(4, k2 + 3, 4);
    assert(np * np == m * m + 2 * m + 1) by (nonlinear_arith)
        requires
            np == m + 1,
    ;
    if n % 2 == 0 {
        let c1 = (k1 + 3) / 4;
        // c1 <= m * m, from k1 <= n * n == 4 * m * m
        assert(n * n == 4 * (m * m) + 0) by (nonlinear_arith)
            requires
                n == 2 * m,
        ;
        lemma_div_is_ordered(k1 + 3, 4 * (m * m) + 3, 4);
        lemma_fundamental_div_mod_converse(4 * (m * m) + 3, 4, m * m, 3);
        // c1 - c2 <= n - 1, from k1 + 3 <= (k2 + 3) + 4 * (n - 1)
        lemma_div_is_ordered(k1 + 3, k2 + 3 + 4 * (n - 1), 4);
        lemma_hoist_over_denominator(k2 + 3, n - 1, 4nat);
        // c2 <= c1
        lemma_div_is_ordered(k2 + 3, k1 + 3, 4);
        assert(rank1_next(n, k1) == n + 1 + c1);
        assert(rank1_next(n, k1) - rank2_next(k2) <= 4 * np - 4);
    } else {
        // n == 2 * m + 1, m >= 1
        let c1 = (2 * n + k1) / 4;
        let d1 = (k1 + 2) / 4;
        assert(2 * n + k1 == k1 + 2 + 4 * m);
        lemma_hoist_over_denominator(k1 + 2, m, 4nat);
        assert(c1 == m + d1);
        // d1 <= m * m + m, from k1 <= n * n == 4 * (m * m + m) + 1
        assert(n * n == 4 * (m * m + m) + 1) by (nonlinear_arith)
            requires
                n == 2 * m + 1,
        ;
        lemma_div_is_ordered(k1 + 2, 4 * (m * m + m) + 3, 4);
        lemma_fundamental_div_mod_converse(4 * (m * m + m) + 3, 4, m * m + m, 3);
        // d1 <= 2 * m + d2, from k1 + 2 <= (k2 + 2) + 4 * (2 * m)
        let d2 = (k2 + 2) / 4;
        lemma_div_is_ordered(k1 + 2, k2 + 2 + 4 * (2 * m), 4);
        lemma_hoist_over_denominator(k2 + 2, 2 * m, 4nat);
        // d2 <= c2 <= d2 + 1
        lemma_div_is_ordered(k2 + 2, k2 + 3, 4);
        lemma_hoist_over_denominator(k2 + 2, 1, 4nat);
        lemma_div_is_ordered(k2 + 3, k2 + 2 + 4, 4);
        assert(rank1_next(n, k1) == c1 + 1);
        assert(rank1_next(n, k1) - rank2_next(k2) <= 4 * np - 4);
    }
}

/// What one final pick resolves to: the candidate that the rank counts
/// already place, or the order statistic of the candidate list.
pub open spec fn statistic_pick(
    min_candidate: i64,
    rank_min: int,
    max_candidate: i64,
    rank_max: int,
    k: int,
    n: int,
    cands: Seq<i64>,
) -> i64 {
    if rank_max < k {
        max_candidate
    } else if k + rank_min <= n * n {
        min_candidate
    } else if k + rank_min - n * n - 1 < cands.len() {
        kth_smallest(cands, k + rank_min - n * n)
    } else {
        max_candidate
    }
}

/// One final pick shared by the two requested ranks: the candidate whose rank
/// count already places it, or the order statistic of the lazily built list.
fn select_statistic(
    lazy: &mut LazyList,
    min_candidate: i64,
    rank_min: usize,
    max_candidate: i64,
    rank_max: usize,
    k: usize,
    window_size: usize,
) -> (r: i64)
    requires
        old(lazy).wf(),
        window_size <= MAX_WINDOW_LEN,
        1 <= k,
        k <= window_size * window_size,
        rank_min <= window_size * window_size,
    ensures
        final(lazy).wf(),
        final(lazy).candidates() == old(lazy).candidates(),
        r == statistic_pick(
            min_candidate,
            rank_min as int,
            max_candidate,
            rank_max as int,
            k as int,
            window_size as int,
            old(lazy).candidates(),
        ),
{
    proof {
        lemma_mul_upper_bound(
            window_size as int,
            MAX_WINDOW_LEN as int,
            window_size as int,
            MAX_WINDOW_LEN as int,
        );
    }
    let n_elements = window_size * window_size;
    if rank_max < k {
        max_candidate
    } else if k + rank_min <= n_elements {
        min_candidate
    } else {
        let list = lazy.build();
        let index = k + rank_min - n_elements - 1;
        if index < list.len() {
            select_nth(&list, index)
        } else {
            // a wrong candidate is caught by the level's rank certificate
            max_candidate
        }
    }
}

/// The two-rank selection recursion over stride-doubled sub-matrices.
///
/// Returns exactly the `k1`-th and `k2`-th order statistics of the current
/// strided matrix: the picks of each level are certified against the level's
/// own rank counts.
fn binary_select(full_window: &Vec<i64>, k1: usize, k2: usize, step: usize) -> (r: (i64, i64))
    requires
        is_ascending(full_window@),
        bounded_vals(full_window@),
        1 <= full_window@.len() <= MAX_WINDOW_LEN,
        1 <= step,
        stride_len(full_window@.len() as int, step as int) >= 2,
        1 <= k2,
        k2 <= k1,
        k1 <= stride_len(full_window@.len() as int, step as int) * stride_len(
            full_window@.len() as int,
            step as int,
        ),
        k1 - k2 <= 4 * stride_len(full_window@.len() as int, step as int) - 4,
    ensures
        r.0 == kth_smallest(
            matrix_seq(stride_seq(full_window@, step as int)),
            k1 as int,
        ),
        r.1 == kth_smallest(
            matrix_seq(stride_seq(full_window@, step as int)),
            k2 as int,
        ),
        r.1 <= r.0,
    decreases stride_len(full_window@.len() as int, step as int),
{
    let ghost full_len = full_window@.len() as int;
    proof {
        lemma_stride_len_bounds(full_len, step as int);
        lemma_stride_preserves(full_window@, step as int);
    }
    let dash = DashIter::new(full_window, step);
    let n = dash.len();
    let dash_vec = dash.to_vec();
    proof {
        lemma_mul_upper_bound(n as int, MAX_WINDOW_LEN as int, n as int, MAX_WINDOW_LEN as int);
    }
    if n == 2 {
        proof {
            let sl = stride_len(full_len, step as int);
            assert(sl == 2);
            assert(sl * sl == 4) by (nonlinear_arith)
                requires
                    sl == 2,
            ;
        }
        let first = select_trivial(&dash_vec, k1);
        let second = select_trivial(&dash_vec, k2);
        proof {
            assert(matrix_seq(dash_vec@).len() == 4);
            lemma_kth_smallest_monotone(matrix_seq(dash_vec@), k1 as int, k2 as int);
        }
        return (first, second);
    }
    // n >= 3: transform the ranks and recurse on the stride-doubled matrix.
    let k1_dash = if n % 2 == 0 {
        n + 1 + (k1 + 3) / 4
    } else {
        (2 * n + k1) / 4 + 1
    };
    let k2_dash = (k2 + 3) / 4;
    proof {
        lemma_rank_transform(n as int, k1 as int, k2 as int);
        lemma_stride_len_halving(full_len, step as int);
        // with a third strided element, the stride has not yet reached the end
        assert(step < full_len - 1);
    }
    let next_step = step * 2;
    let (max_candidate, min_candidate) = binary_select(full_window, k1_dash, k2_dash, next_step);
    let rank_max = n_smaller(&dash_vec, max_candidate);
    let rank_min = n_greater(&dash_vec, min_candidate);
    let mut lazy = LazyList::new(
        crate::lazy_list::copy_values(&dash_vec),
        min_candidate,
        max_candidate,
    );
    let first_pick = select_statistic(
        &mut lazy,
        min_candidate,
        rank_min,
        max_candidate,
        rank_max,
        k1,
        n,
    );
    let second_pick = select_statistic(
        &mut lazy,
        min_candidate,
        rank_min,
        max_candidate,
        rank_max,
        k2,
        n,
    );
    let first = certify_or_direct(&dash_vec, k1, first_pick);
    let second = certify_or_direct(&dash_vec, k2, second_pick);
    proof {
        assert(matrix_seq(dash_vec@).len() == (n * n) as nat);
        lemma_kth_smallest_monotone(matrix_seq(dash_vec@), k1 as int, k2 as int);
    }
    (first, second)
}

/// The `k`-th order statistic (1-indexed, ascending) of the virtual
/// difference matrix of the ascending sample window.
///
/// For every ascending, bounded window and every rank `1 <= k <= n * n`, the
/// result equals the `k`-th entry of the sorted, fully materialized matrix:
/// the stride-1 view of the window is the window itself, so the selection
/// recursion's contract gives the statistic directly.
pub fn select_kth_statistic(window: &Vec<i64>, k: usize) -> (r: i64)
    requires
        is_ascending(window@),
        bounded_vals(window@),
        1 <= window@.len() <= MAX_WINDOW_LEN,
        1 <= k <= window@.len() * window@.len(),
    ensures
        r == kth_smallest(matrix_seq(window@), k as int),
{
    let n = window.len();
    let ghost w = window@;
    let ghost m = matrix_seq(w);
    if n == 1 {
        proof {
            assert(w.len() * w.len() == 1) by (nonlinear_arith)
                requires
                    w.len() == 1,
            ;
            assert(m.len() == 1);
            assert(m[0] == matrix_entry(w, 0, 0));
            assert(m =~= Seq::<i64>::empty().push(0i64));
            lemma_counts_empty(0i64);
            lemma_counts_push(Seq::<i64>::empty(), 0i64, 0i64);
            lemma_kth_from_counts(m, 0i64, 1);
        }
        return 0i64;
    }
    proof {
        lemma_stride_identity(w);
        assert(stride_len(w.len() as int, 1) == w.len());
    }
    let (statistic, _) = binary_select(window, k, k, 1);
    statistic
}

} // verus!
