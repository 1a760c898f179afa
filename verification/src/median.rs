//! Intermediary median value: the one or two middle elements of the sorted
//! window, not yet averaged.

use vstd::prelude::*;

verus! {

use crate::matrix::MAX_SAMPLE_MAGNITUDE;

/// Half of `s`, rounded toward zero, as Rust's integer division rounds.
pub open spec fn trunc_half(s: int) -> int {
    if s >= 0 {
        s / 2
    } else {
        -((-s) / 2)
    }
}

/// The middle element of an odd-sized sample, or the two middle elements of
/// an even-sized one, in ascending order.
#[derive(Debug, PartialEq, Eq, Structural)]
pub enum RawMedian {
    Odd(i64),
    Even(i64, i64),
}

/// The single value a raw median stands for: the element itself, or the
/// average of the two middle elements, rounded toward zero.
pub open spec fn median_value(m: RawMedian) -> int {
    match m {
        RawMedian::Odd(v) => v as int,
        RawMedian::Even(a, b) => trunc_half(a + b),
    }
}

impl RawMedian {
    /// Both held elements are in ascending order and within the sample bound.
    pub open spec fn wf(&self) -> bool {
        match *self {
            RawMedian::Odd(v) => -MAX_SAMPLE_MAGNITUDE <= v <= MAX_SAMPLE_MAGNITUDE,
            RawMedian::Even(a, b) => a <= b && -MAX_SAMPLE_MAGNITUDE <= a
                <= MAX_SAMPLE_MAGNITUDE && -MAX_SAMPLE_MAGNITUDE <= b <= MAX_SAMPLE_MAGNITUDE,
        }
    }

    /// The actual median: the value itself for odd-sized samples, the average
    /// of the two middle elements for even-sized ones.
    pub fn to_median(self) -> (r: i64)
        requires
            self.wf(),
        ensures
            r == median_value(self),
    {
        match self {
            RawMedian::Odd(v) => v,
            RawMedian::Even(a, b) => {
                let s = a + b;
                if s >= 0 {
                    s / 2
                } else {
                    -((-s) / 2)
                }
            },
        }
    }
}

} // verus!
