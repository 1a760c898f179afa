//! Mathematical model of the virtual difference matrix.
//!
//! For a sample sequence `s` of length `n`, the matrix has entries
//! `A[i][j] = s[i] - s[j]`; it is never materialized by the algorithm, but all
//! contracts of the library are stated against its flattened row-major form
//! `matrix_seq(s)`, together with order-statistic and rank-counting notions.

use vstd::prelude::*;

verus! {

use vstd::multiset::Multiset;
use vstd::seq_lib::lemma_multiset_commutative;
use vstd::relations::{sorted_by, total_ordering};
use vstd::arithmetic::div_mod::lemma_fundamental_div_mod_converse;

/// Largest sample magnitude the estimator accepts; any two samples within it
/// can be subtracted without overflowing `i64`.
pub const MAX_SAMPLE_MAGNITUDE: i64 = 0x3fff_ffff_ffff_ffff;

/// Largest window length; the virtual matrix then has at most
/// `46340 * 46340 < 2^31` entries, so every rank fits `usize` on
/// every supported platform.
pub const MAX_WINDOW_LEN: usize = 46340;

/// Every value of the sequence lies within the sample bound.
pub open spec fn bounded_vals(s: Seq<i64>) -> bool {
    forall|i: int|
        0 <= i < s.len() ==> -MAX_SAMPLE_MAGNITUDE <= #[trigger] s[i] <= MAX_SAMPLE_MAGNITUDE
}

/// The sequence is sorted in ascending order (duplicates permitted).
pub open spec fn is_ascending(s: Seq<i64>) -> bool {
    forall|i: int, j: int| 0 <= i < j < s.len() ==> #[trigger] s[i] <= #[trigger] s[j]
}

/// Entry `(i, j)` of the virtual difference matrix.
pub open spec fn matrix_entry(s: Seq<i64>, i: int, j: int) -> i64 {
    (s[i] - s[j]) as i64
}

/// The flattened, row-major virtual matrix: entry `(i, j)` sits at `i * n + j`.
pub open spec fn matrix_seq(s: Seq<i64>) -> Seq<i64> {
    Seq::new(
        (s.len() * s.len()) as nat,
        |idx: int| matrix_entry(s, idx / (s.len() as int), idx % (s.len() as int)),
    )
}

/// Row `i` of the virtual matrix.
pub open spec fn row_seq(s: Seq<i64>, i: int) -> Seq<i64> {
    Seq::new(s.len(), |j: int| matrix_entry(s, i, j))
}

/// The predicate "strictly below the pivot".
pub open spec fn lt_pred(g: i64) -> spec_fn(i64) -> bool {
    |x: i64| x < g
}

/// The predicate "strictly above the pivot".
pub open spec fn gt_pred(g: i64) -> spec_fn(i64) -> bool {
    |x: i64| x > g
}

/// The predicate "equal to the pivot".
pub open spec fn eq_pred(g: i64) -> spec_fn(i64) -> bool {
    |x: i64| x == g
}

/// The predicate "strictly between the two pivots".
pub open spec fn between_pred(lo: i64, hi: i64) -> spec_fn(i64) -> bool {
    |x: i64| lo < x < hi
}

/// Number of entries of `m` strictly below the pivot.
pub open spec fn count_lt(m: Seq<i64>, g: i64) -> nat {
    m.filter(lt_pred(g)).len()
}

/// Number of entries of `m` strictly above the pivot.
pub open spec fn count_gt(m: Seq<i64>, g: i64) -> nat {
    m.filter(gt_pred(g)).len()
}

/// Number of entries of `m` equal to the pivot.
pub open spec fn count_eq(m: Seq<i64>, g: i64) -> nat {
    m.filter(eq_pred(g)).len()
}

/// The ascending order on sample values.
pub open spec fn le_pred() -> spec_fn(i64, i64) -> bool {
    |a: i64, b: i64| a <= b
}

/// The sequence rearranged in ascending order.
pub open spec fn sort64(m: Seq<i64>) -> Seq<i64> {
    m.sort_by(le_pred())
}

/// The `k`-th order statistic (1-indexed, ascending) of the sequence.
pub open spec fn kth_smallest(m: Seq<i64>, k: int) -> i64 {
    sort64(m)[k - 1]
}

/// Below or above or equal: the three strict rank counts split the sequence.
pub proof fn lemma_count_split(m: Seq<i64>, g: i64)
    ensures
        count_lt(m, g) + count_eq(m, g) + count_gt(m, g) == m.len(),
    decreases m.len(),
{
    reveal(Seq::filter);
    if m.len() > 0 {
        lemma_count_split(m.drop_last(), g);
    }
}

/// Filtering keeps at most everything.
pub proof fn lemma_filter_len_le(m: Seq<i64>, pred: spec_fn(i64) -> bool)
    ensures
        m.filter(pred).len() <= m.len(),
    decreases m.len(),
{
    reveal(Seq::filter);
    if m.len() > 0 {
        lemma_filter_len_le(m.drop_last(), pred);
    }
}

/// How many elements a filter keeps depends only on the multiset of elements.
pub proof fn lemma_filter_len_multiset(m: Seq<i64>, pred: spec_fn(i64) -> bool)
    ensures
        m.filter(pred).len() == m.to_multiset().filter(pred).len(),
    decreases m.len(),
{
    broadcast use vstd::seq_lib::group_to_multiset_ensures;
    broadcast use vstd::multiset::group_multiset_axioms;
    broadcast use vstd::multiset::lemma_insert_len;

    reveal(Seq::filter);
    if m.len() == 0 {
        assert(m.to_multiset().filter(pred) =~= Multiset::<i64>::empty());
    } else {
        let u = m.drop_last();
        let x = m.last();
        lemma_filter_len_multiset(u, pred);
        assert(u.push(x) =~= m);
        assert(m.to_multiset() == u.to_multiset().insert(x));
        if pred(x) {
            assert(m.to_multiset().filter(pred) =~= u.to_multiset().filter(pred).insert(x));
        } else {
            assert(m.to_multiset().filter(pred) =~= u.to_multiset().filter(pred));
        }
    }
}

/// The three rank counts are invariant under rearrangement.
pub proof fn lemma_counts_permutation(a: Seq<i64>, b: Seq<i64>, g: i64)
    requires
        a.to_multiset() == b.to_multiset(),
    ensures
        count_lt(a, g) == count_lt(b, g),
        count_gt(a, g) == count_gt(b, g),
        count_eq(a, g) == count_eq(b, g),
{
    lemma_filter_len_multiset(a, lt_pred(g));
    lemma_filter_len_multiset(b, lt_pred(g));
    lemma_filter_len_multiset(a, gt_pred(g));
    lemma_filter_len_multiset(b, gt_pred(g));
    lemma_filter_len_multiset(a, eq_pred(g));
    lemma_filter_len_multiset(b, eq_pred(g));
}

/// In an ascending sequence, the entries strictly below a pivot form exactly
/// the prefix of length `count_lt`.
pub proof fn lemma_ascending_count_lt(t: Seq<i64>, g: i64)
    requires
        is_ascending(t),
    ensures
        count_lt(t, g) <= t.len(),
        forall|i: int| 0 <= i < t.len() ==> (t[i] < g <==> i < count_lt(t, g)),
    decreases t.len(),
{
    reveal(Seq::filter);
    lemma_filter_len_le(t, lt_pred(g));
    if t.len() > 0 {
        let u = t.drop_last();
        let x = t.last();
        let l = t.len() as int;
        assert(is_ascending(u)) by {
            assert(forall|i: int| 0 <= i < u.len() ==> u[i] == t[i]);
        }
        lemma_ascending_count_lt(u, g);
        assert(lt_pred(g)(x) == (x < g));
        if x < g {
            assert forall|i: int| 0 <= i < u.len() implies u[i] < g by {
                assert(t[i] <= t[l - 1]);
            }
            if count_lt(u, g) < u.len() {
                assert(u[count_lt(u, g) as int] < g);
                assert(false);
            }
            assert(count_lt(t, g) == l);
            assert forall|i: int| 0 <= i < l implies (t[i] < g <==> i < count_lt(t, g)) by {
                if i < l - 1 {
                    assert(t[i] == u[i]);
                }
            }
        } else {
            assert(count_lt(t, g) == count_lt(u, g));
            assert forall|i: int| 0 <= i < l implies (t[i] < g <==> i < count_lt(t, g)) by {
                if i < l - 1 {
                    assert(t[i] == u[i]);
                    assert(u[i] < g <==> i < count_lt(u, g));
                } else {
                    assert(count_lt(u, g) <= u.len());
                }
            }
        }
    }
}

/// In an ascending sequence, the entries strictly above a pivot form exactly
/// the suffix of length `count_gt`.
pub proof fn lemma_ascending_count_gt(t: Seq<i64>, g: i64)
    requires
        is_ascending(t),
    ensures
        count_gt(t, g) <= t.len(),
        forall|i: int| 0 <= i < t.len() ==> (t[i] > g <==> i >= t.len() - count_gt(t, g)),
    decreases t.len(),
{
    reveal(Seq::filter);
    lemma_filter_len_le(t, gt_pred(g));
    if t.len() > 0 {
        let u = t.drop_last();
        let x = t.last();
        let l = t.len() as int;
        assert(is_ascending(u)) by {
            assert(forall|i: int| 0 <= i < u.len() ==> u[i] == t[i]);
        }
        lemma_ascending_count_gt(u, g);
        assert(gt_pred(g)(x) == (x > g));
        if x > g {
            assert(count_gt(t, g) == count_gt(u, g) + 1);
            assert forall|i: int| 0 <= i < l implies (t[i] > g <==> i >= l - count_gt(t, g)) by {
                if i < l - 1 {
                    assert(t[i] == u[i]);
                    assert(u[i] > g <==> i >= u.len() - count_gt(u, g));
                }
            }
        } else {
            assert(count_gt(t, g) == count_gt(u, g));
            if count_gt(u, g) > 0 {
                let i0 = u.len() - count_gt(u, g);
                assert(u[i0 as int] > g);
                assert(t[i0 as int] <= t[l - 1]);
                assert(false);
            }
            assert forall|i: int| 0 <= i < l implies (t[i] > g <==> i >= l - count_gt(t, g)) by {
                if i < l - 1 {
                    assert(t[i] == u[i]);
                    assert(u[i] > g <==> i >= u.len() - count_gt(u, g));
                }
            }
        }
    }
}

/// What `sort64` returns: an ascending rearrangement of the input.
pub proof fn lemma_sort64_ensures(m: Seq<i64>)
    ensures
        sort64(m).to_multiset() == m.to_multiset(),
        sort64(m).len() == m.len(),
        is_ascending(sort64(m)),
{
    broadcast use vstd::seq_lib::group_to_multiset_ensures;

    m.lemma_sort_by_ensures(le_pred());
    let t = sort64(m);
    assert(t.to_multiset() == m.to_multiset());
    assert(t.len() == t.to_multiset().len());
    assert(m.len() == m.to_multiset().len());
    assert forall|i: int, j: int| 0 <= i < j < t.len() implies t[i] <= t[j] by {
        assert(le_pred()(t[i], t[j]));
    }
}

/// Two ascending sequences over the same multiset of values are equal.
pub proof fn lemma_ascending_unique(a: Seq<i64>, b: Seq<i64>)
    requires
        is_ascending(a),
        is_ascending(b),
        a.to_multiset() == b.to_multiset(),
    ensures
        a == b,
{
    let leq = le_pred();
    assert(total_ordering(leq)) by {
        assert forall|x: i64, y: i64| #[trigger] leq(x, y) || #[trigger] leq(y, x) by {}
        assert forall|x: i64, y: i64| #[trigger] leq(x, y) && #[trigger] leq(y, x) implies x
            == y by {}
    }
    assert(sorted_by(a, leq)) by {
        assert forall|i: int, j: int| 0 <= i < j < a.len() implies leq(a[i], a[j]) by {
            assert(a[i] <= a[j]);
        }
    }
    assert(sorted_by(b, leq)) by {
        assert forall|i: int, j: int| 0 <= i < j < b.len() implies leq(b[i], b[j]) by {
            assert(b[i] <= b[j]);
        }
    }
    vstd::seq_lib::lemma_sorted_unique(a, b, leq);
}

/// A value whose strict rank counts bracket position `k` is the `k`-th order
/// statistic: this certifies a candidate returned by the selection recursion.
pub proof fn lemma_kth_from_counts(m: Seq<i64>, r: i64, k: int)
    requires
        1 <= k <= m.len(),
        count_lt(m, r) < k,
        k + count_gt(m, r) <= m.len(),
    ensures
        kth_smallest(m, k) == r,
{
    let t = sort64(m);
    lemma_sort64_ensures(m);
    lemma_counts_permutation(t, m, r);
    lemma_ascending_count_lt(t, r);
    lemma_ascending_count_gt(t, r);
    let i = k - 1;
    assert(!(t[i] < r));
    assert(!(t[i] > r));
}

/// Moving one occurrence of a value from one multiset into another preserves
/// their combined contents.
pub proof fn lemma_multiset_transfer(
    x: Multiset<i64>,
    y: Multiset<i64>,
    z: Multiset<i64>,
    v: i64,
)
    requires
        y.count(v) > 0,
    ensures
        x.insert(v).add(y.remove(v)).add(z) == x.add(y).add(z),
{
    broadcast use vstd::multiset::group_multiset_axioms;

    assert(x.insert(v).add(y.remove(v)).add(z) =~= x.add(y).add(z));
}

/// Order statistics are monotone in the rank.
pub proof fn lemma_kth_smallest_monotone(m: Seq<i64>, k1: int, k2: int)
    requires
        1 <= k2 <= k1 <= m.len(),
    ensures
        kth_smallest(m, k2) <= kth_smallest(m, k1),
{
    lemma_sort64_ensures(m);
}

/// A filter whose hits form exactly the index band `[c, d)` keeps exactly that
/// contiguous slice.
pub proof fn lemma_filter_band(q: Seq<i64>, pred: spec_fn(i64) -> bool, c: int, d: int)
    requires
        0 <= c <= d <= q.len(),
        forall|j: int| 0 <= j < c ==> !pred(#[trigger] q[j]),
        forall|j: int| c <= j < d ==> pred(#[trigger] q[j]),
        forall|j: int| d <= j < q.len() ==> !pred(#[trigger] q[j]),
    ensures
        q.filter(pred) == q.subrange(c, d),
    decreases q.len(),
{
    reveal(Seq::filter);
    if q.len() == 0 {
        assert(q.filter(pred) =~= q.subrange(c, d));
    } else {
        let u = q.drop_last();
        let x = q.last();
        let l = q.len() as int;
        assert(forall|j: int| 0 <= j < u.len() ==> u[j] == q[j]);
        if d <= l - 1 {
            lemma_filter_band(u, pred, c, d);
            assert(u.subrange(c, d) =~= q.subrange(c, d));
        } else if c <= l - 1 {
            lemma_filter_band(u, pred, c, l - 1);
            assert(q.subrange(c, d) =~= u.subrange(c, l - 1).push(x));
        } else {
            lemma_filter_band(u, pred, l - 1, l - 1);
            assert(q.filter(pred) =~= q.subrange(c, d));
        }
    }
}

/// Row `i` of the virtual matrix occupies positions `[i*n, i*n + n)` of the
/// flattened matrix.
pub proof fn lemma_matrix_row(s: Seq<i64>, i: int)
    requires
        0 <= i < s.len(),
    ensures
        matrix_seq(s).subrange(i * s.len(), i * s.len() + s.len()) == row_seq(s, i),
{
    let n = s.len() as int;
    assert(0 <= i * n && i * n + n <= n * n) by (nonlinear_arith)
        requires
            0 <= i < n,
    ;
    assert forall|j: int| 0 <= j < n implies matrix_seq(s)[i * n + j] == row_seq(s, i)[j] by {
        lemma_fundamental_div_mod_converse(i * n + j, n, i, j);
    }
    assert(matrix_seq(s).subrange(i * n, i * n + n) =~= row_seq(s, i));
}

/// Extending the flattened-matrix prefix by one row.
pub proof fn lemma_matrix_take_row(s: Seq<i64>, i: int)
    requires
        0 <= i < s.len(),
    ensures
        matrix_seq(s).take(i * s.len() + s.len()) == matrix_seq(s).take(i * s.len()) + row_seq(
            s,
            i,
        ),
{
    let n = s.len() as int;
    lemma_matrix_row(s, i);
    assert(0 <= i * n && i * n + n <= n * n) by (nonlinear_arith)
        requires
            0 <= i < n,
    ;
    assert(matrix_seq(s).take(i * n + n) =~= matrix_seq(s).take(i * n) + matrix_seq(s).subrange(
        i * n,
        i * n + n,
    ));
}

/// The empty sequence has no ranked entries.
pub proof fn lemma_counts_empty(g: i64)
    ensures
        count_lt(Seq::<i64>::empty(), g) == 0,
        count_gt(Seq::<i64>::empty(), g) == 0,
        count_eq(Seq::<i64>::empty(), g) == 0,
{
    reveal(Seq::filter);
}

/// How one appended element changes the rank counts.
pub proof fn lemma_counts_push(s: Seq<i64>, x: i64, g: i64)
    ensures
        count_lt(s.push(x), g) == count_lt(s, g) + (if x < g {
            1nat
        } else {
            0nat
        }),
        count_gt(s.push(x), g) == count_gt(s, g) + (if x > g {
            1nat
        } else {
            0nat
        }),
        count_eq(s.push(x), g) == count_eq(s, g) + (if x == g {
            1nat
        } else {
            0nat
        }),
{
    reveal(Seq::filter);
    assert(s.push(x).drop_last() =~= s);
    assert(s.push(x).last() == x);
}

/// Inserting anywhere in a sequence inserts into its multiset.
pub proof fn lemma_insert_multiset(s: Seq<i64>, i: int, x: i64)
    requires
        0 <= i <= s.len(),
    ensures
        s.insert(i, x).to_multiset() == s.to_multiset().insert(x),
{
    broadcast use vstd::seq_lib::group_to_multiset_ensures;
    broadcast use vstd::multiset::group_multiset_axioms;

    let a = s.take(i);
    let b = s.skip(i);
    assert(s =~= a + b);
    assert(s.insert(i, x) =~= a + (seq![x] + b));
    lemma_multiset_commutative(a, b);
    lemma_multiset_commutative(a, seq![x] + b);
    lemma_multiset_commutative(seq![x], b);
    assert(seq![x].to_multiset() =~= Multiset::<i64>::empty().insert(x)) by {
        assert(seq![x] =~= Seq::<i64>::empty().push(x));
    }
    assert(s.insert(i, x).to_multiset() =~= s.to_multiset().insert(x));
}

/// Filtering distributes over concatenation, counted.
pub proof fn lemma_filter_concat_len(a: Seq<i64>, b: Seq<i64>, pred: spec_fn(i64) -> bool)
    ensures
        (a + b).filter(pred).len() == a.filter(pred).len() + b.filter(pred).len(),
{
    Seq::filter_distributes_over_add(a, b, pred);
}

} // verus!
