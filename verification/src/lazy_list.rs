//! Lazy, memoized candidate list.
//!
//! A selection query may need the list of matrix entries between its two
//! pivot bounds for both requested ranks, or for neither; the builder holds
//! the source window and the bounds until the first `build` call, transitions
//! to the built state exactly once, and afterwards serves the stored list.

use vstd::prelude::*;

verus! {

use crate::matrix::{between_pred, bounded_vals, is_ascending, matrix_seq, MAX_WINDOW_LEN};
use crate::pick_list::pick_list;

enum ListState {
    Unbuilt { window: Vec<i64>, min: i64, max: i64 },
    Built { list: Vec<i64> },
}

/// Two-state builder of the candidate list `L`: every matrix entry strictly
/// between the two bounds it was created with.
pub struct LazyList {
    state: ListState,
}

impl LazyList {
    /// The builder's source window is ascending and bounded.
    pub closed spec fn wf(&self) -> bool {
        match self.state {
            ListState::Unbuilt { window, min, max } => is_ascending(window@) && bounded_vals(
                window@,
            ) && window@.len() <= MAX_WINDOW_LEN,
            ListState::Built { list } => true,
        }
    }

    /// The list that `build` returns, whether or not it is built yet.
    pub closed spec fn candidates(&self) -> Seq<i64> {
        match self.state {
            ListState::Unbuilt { window, min, max } => matrix_seq(window@).filter(
                between_pred(min, max),
            ),
            ListState::Built { list } => list@,
        }
    }

    /// A builder for the entries of `window`'s difference matrix strictly
    /// between `min` and `max`; nothing is computed yet.
    pub fn new(window: Vec<i64>, min: i64, max: i64) -> (r: LazyList)
        requires
            is_ascending(window@),
            bounded_vals(window@),
            window@.len() <= MAX_WINDOW_LEN,
        ensures
            r.wf(),
            r.candidates() == matrix_seq(window@).filter(between_pred(min, max)),
    {
        LazyList { state: ListState::Unbuilt { window, min, max } }
    }

    /// The candidate list, computed on the first call and replayed afterwards.
    pub fn build(&mut self) -> (r: Vec<i64>)
        requires
            old(self).wf(),
        ensures
            final(self).wf(),
            final(self).candidates() == old(self).candidates(),
            r@ == old(self).candidates(),
    {
        match &self.state {
            ListState::Unbuilt { window, min, max } => {
                let mut list: Vec<i64> = Vec::new();
                pick_list(window, *min, *max, &mut list);
                let out = copy_values(&list);
                self.state = ListState::Built { list };
                out
            },
            ListState::Built { list } => copy_values(list),
        }
    }
}

/// A fresh vector with the same values.
pub(crate) fn copy_values(v: &Vec<i64>) -> (r: Vec<i64>)
    ensures
        r@ == v@,
{
    let mut out: Vec<i64> = Vec::new();
    let mut i: usize = 0;
    while i < v.len()
        invariant
            i <= v@.len(),
            out@ == v@.take(i as int),
        decreases v@.len() - i,
    {
        out.push(v[i]);
        proof {
            assert(v@.take(i + 1) =~= v@.take(i as int).push(v@[i as int]));
        }
        i = i + 1;
    }
    proof {
        assert(out@ =~= v@);
    }
    out
}

} // verus!
