//! The raw Qn estimate: sample count plus the selected order statistic.

use vstd::prelude::*;

verus! {

/// Calculated raw Qn estimate of scale.
///
/// The statistic still needs the bias-correction multipliers (floating-point
/// work that lives outside this library) before it is an actual scale.
#[derive(Copy, Clone, Debug, PartialEq, Eq, Structural)]
pub struct ScaleEstimate {
    /// Number of samples the statistic was computed over.
    pub n_samples: usize,
    /// The raw order statistic of the difference matrix.
    pub statistic: i64,
}

} // verus!
