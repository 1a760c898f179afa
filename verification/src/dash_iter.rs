//! Strided view of a sample sequence.
//!
//! For stride `step`, the view consists of elements `0, step, 2*step, ...` of
//! the base sequence, and the final element is appended whenever the last
//! stride position does not land on it. Both extremes of the base sequence are
//! therefore always present, which the selection recursion depends on.

use vstd::prelude::*;

verus! {

use crate::matrix::{bounded_vals, is_ascending};
use vstd::arithmetic::div_mod::{
    lemma_fundamental_div_mod, lemma_fundamental_div_mod_converse,
    lemma_mod_division_less_than_divisor,
};
use vstd::arithmetic::mul::lemma_mul_inequality;

/// Length of the strided view over a base sequence of length `n`:
/// `1 + ceil((n - 1) / step)`.
pub open spec fn stride_len(n: int, step: int) -> int {
    1 + (n - 1 + step - 1) / step
}

/// Base-sequence position of element `i` of the strided view: `i * step`,
/// clamped to the final element.
pub open spec fn stride_pos(n: int, step: int, i: int) -> int {
    if i * step < n {
        i * step
    } else {
        n - 1
    }
}

/// The strided view of `s` with stride `step`.
pub open spec fn stride_seq(s: Seq<i64>, step: int) -> Seq<i64> {
    Seq::new(
        stride_len(s.len() as int, step) as nat,
        |i: int| s[stride_pos(s.len() as int, step, i)],
    )
}

/// Elementary bounds of the strided view's length.
pub proof fn lemma_stride_len_bounds(n: int, step: int)
    requires
        n >= 1,
        step >= 1,
    ensures
        1 <= stride_len(n, step) <= n,
        n >= 2 ==> stride_len(n, step) >= 2,
        stride_len(n, 1) == n,
        stride_len(n, step) >= 3 ==> step < n - 1,
{
    let x = n - 1 + step - 1;
    lemma_fundamental_div_mod(x, step);
    lemma_mod_division_less_than_divisor(x, step);
    let q = x / step;
    let r = x % step;
    assert(x == step * q + r);
    assert(0 <= q <= n - 1) by (nonlinear_arith)
        requires
            x == step * q + r,
            x == n + step - 2,
            0 <= r < step,
            n >= 1,
            step >= 1,
    ;
    if n >= 2 {
        assert(q >= 1) by (nonlinear_arith)
            requires
                x == step * q + r,
                x == n + step - 2,
                0 <= r < step,
                n >= 2,
                step >= 1,
        ;
    }
    if stride_len(n, step) >= 3 {
        assert(q >= 2);
        assert(step < n - 1) by (nonlinear_arith)
            requires
                x == step * q + r,
                x == n + step - 2,
                0 <= r < step,
                q >= 2,
                step >= 1,
        ;
    }
}

/// Doubling the stride takes the view's length `m` to `m / 2 + 1`.
pub proof fn lemma_stride_len_halving(n: int, step: int)
    requires
        n >= 1,
        step >= 1,
    ensures
        stride_len(n, 2 * step) == stride_len(n, step) / 2 + 1,
{
    let x = n - 1;
    lemma_fundamental_div_mod(x + step - 1, step);
    lemma_mod_division_less_than_divisor(x + step - 1, step);
    let q = (x + step - 1) / step;
    let r = (x + step - 1) % step;
    assert(x + step - 1 == step * q + r);
    // x + 2*step - 1 == step * (q + 1) + r
    let m = q / 2;
    lemma_fundamental_div_mod(q, 2);
    if q % 2 == 0 {
        // x + 2*step - 1 == m * (2*step) + (step + r), with step + r in [0, 2*step)
        assert(x + 2 * step - 1 == m * (2 * step) + (step + r)) by (nonlinear_arith)
            requires
                x + step - 1 == step * q + r,
                q == 2 * m,
        ;
        lemma_fundamental_div_mod_converse(x + 2 * step - 1, 2 * step, m, step + r);
        assert((q + 1) / 2 == m);
    } else {
        // x + 2*step - 1 == (m + 1) * (2*step) + r
        assert(x + 2 * step - 1 == (m + 1) * (2 * step) + r) by (nonlinear_arith)
            requires
                x + step - 1 == step * q + r,
                q == 2 * m + 1,
        ;
        lemma_fundamental_div_mod_converse(x + 2 * step - 1, 2 * step, m + 1, r);
        assert((q + 1) / 2 == m + 1);
    }
}

/// The strided view of an ascending, bounded sequence is ascending and
/// bounded, and every element of the view is an element of the base.
pub proof fn lemma_stride_preserves(s: Seq<i64>, step: int)
    requires
        s.len() >= 1,
        step >= 1,
    ensures
        is_ascending(s) ==> is_ascending(stride_seq(s, step)),
        bounded_vals(s) ==> bounded_vals(stride_seq(s, step)),
{
    let n = s.len() as int;
    let t = stride_seq(s, step);
    assert forall|i: int| 0 <= i < t.len() implies 0 <= #[trigger] stride_pos(n, step, i) < n by {
        if i * step < n {
            assert(i * step >= 0) by (nonlinear_arith)
                requires
                    i >= 0,
                    step >= 1,
            ;
        }
    }
    if is_ascending(s) {
        assert forall|i: int, j: int| 0 <= i < j < t.len() implies #[trigger] t[i] <= #[trigger] t[j] by {
            let pi = stride_pos(n, step, i);
            let pj = stride_pos(n, step, j);
            lemma_mul_inequality(i, j, step);
            assert(pi <= pj);
            if pi < pj {
                assert(s[pi] <= s[pj]);
            }
        }
    }
    if bounded_vals(s) {
        assert forall|i: int|
            0 <= i < t.len() implies -crate::matrix::MAX_SAMPLE_MAGNITUDE <= #[trigger] t[i]
            <= crate::matrix::MAX_SAMPLE_MAGNITUDE by {
            assert(t[i] == s[stride_pos(n, step, i)]);
        }
    }
}

/// The strided view keeps the base sequence's first and last elements at its
/// own extremes.
pub proof fn lemma_stride_ends(s: Seq<i64>, step: int)
    requires
        s.len() >= 1,
        step >= 1,
    ensures
        stride_seq(s, step)[0] == s[0],
        stride_seq(s, step).last() == s[s.len() - 1],
{
    let n = s.len() as int;
    let t = stride_seq(s, step);
    lemma_stride_len_bounds(n, step);
    let il = stride_len(n, step) - 1;
    lemma_fundamental_div_mod(n + step - 2, step);
    lemma_mod_division_less_than_divisor(n + step - 2, step);
    assert(il * step >= n - 1) by (nonlinear_arith)
        requires
            n + step - 2 == step * il + ((n + step - 2) % step),
            0 <= (n + step - 2) % step < step,
            step >= 1,
    ;
    assert(stride_pos(n, step, il) == n - 1);
}

/// The stride-1 view is the base sequence itself.
pub proof fn lemma_stride_identity(s: Seq<i64>)
    requires
        s.len() >= 1,
    ensures
        stride_seq(s, 1) == s,
{
    let n = s.len() as int;
    assert(stride_len(n, 1) == n);
    assert forall|i: int| 0 <= i < n implies stride_seq(s, 1)[i] == s[i] by {
        assert(stride_pos(n, 1, i) == i);
    }
    assert(stride_seq(s, 1) =~= s);
}

/// A materialized strided view of a sample sequence.
pub struct DashIter {
    items: Vec<i64>,
}

impl DashIter {
    /// The elements of the view, in order.
    pub closed spec fn view(&self) -> Seq<i64> {
        self.items@
    }

    /// Materialize the strided view of `inner` with the given stride.
    pub fn new(inner: &Vec<i64>, step: usize) -> (r: DashIter)
        requires
            1 <= step,
            1 <= inner@.len(),
        ensures
            r@ == stride_seq(inner@, step as int),
    {
        let n = inner.len();
        let quot = (n - 1) / step;
        let rem = (n - 1) % step;
        proof {
            lemma_fundamental_div_mod(n - 1, step as int);
            lemma_mod_division_less_than_divisor(n - 1, step as int);
            if rem != 0 {
                // then step >= 2, so the quotient leaves room for the +2 below
                vstd::arithmetic::div_mod::lemma_div_is_ordered_by_denominator(
                    n - 1,
                    2,
                    step as int,
                );
                assert(n - 1 + step - 1 == (quot as int + 1) * (step as int) + (rem - 1))
                    by (nonlinear_arith)
                    requires
                        n - 1 == (step as int) * (quot as int) + (rem as int),
                ;
                lemma_fundamental_div_mod_converse(
                    n - 1 + step - 1,
                    step as int,
                    quot as int + 1,
                    rem as int - 1,
                );
            } else {
                assert(n - 1 + step - 1 == (quot as int) * (step as int) + (step - 1))
                    by (nonlinear_arith)
                    requires
                        n - 1 == (step as int) * (quot as int) + (rem as int),
                        rem == 0,
                ;
                lemma_fundamental_div_mod_converse(
                    n - 1 + step - 1,
                    step as int,
                    quot as int,
                    step as int - 1,
                );
            }
        }
        let len = if rem != 0 {
            quot + 2
        } else {
            quot + 1
        };
        let mut items: Vec<i64> = Vec::new();
        let mut i: usize = 0;
        let mut p: usize = 0;
        while i < len
            invariant
                i <= len,
                len == stride_len(n as int, step as int),
                n == inner@.len(),
                1 <= step,
                1 <= n,
                p <= n,
                p < n ==> p == i * step,
                p == n ==> i * step >= n,
                items@ == stride_seq(inner@, step as int).take(i as int),
            decreases len - i,
        {
            let v = if p < n {
                inner[p]
            } else {
                inner[n - 1]
            };
            proof {
                if p == n {
                    assert(stride_pos(n as int, step as int, i as int) == n - 1);
                }
                assert(stride_seq(inner@, step as int)[i as int] == v);
                assert(stride_seq(inner@, step as int).take(i + 1) =~= stride_seq(
                    inner@,
                    step as int,
                ).take(i as int).push(v));
            }
            items.push(v);
            i = i + 1;
            if p < n {
                proof {
                    assert((i - 1) * step + step == i * step) by (nonlinear_arith);
                }
                if step < n - p {
                    p = p + step;
                } else {
                    p = n;
                }
            } else {
                proof {
                    lemma_mul_inequality(i - 1, i as int, step as int);
                }
            }
        }
        proof {
            assert(items@ =~= stride_seq(inner@, step as int));
        }
        DashIter { items }
    }

    /// Number of elements of the view.
    pub fn len(&self) -> (r: usize)
        ensures
            r == self@.len(),
    {
        self.items.len()
    }

    /// The view's elements as a vector.
    pub fn to_vec(&self) -> (r: Vec<i64>)
        ensures
            r@ == self@,
    {
        let mut out: Vec<i64> = Vec::new();
        let mut i: usize = 0;
        while i < self.items.len()
            invariant
                i <= self.items@.len(),
                out@ == self.items@.take(i as int),
            decreases self.items@.len() - i,
        {
            out.push(self.items[i]);
            proof {
                assert(self.items@.take(i + 1) =~= self.items@.take(i as int).push(
                    self.items@[i as int],
                ));
            }
            i = i + 1;
        }
        proof {
            assert(out@ =~= self.items@);
        }
        out
    }
}

} // verus!
