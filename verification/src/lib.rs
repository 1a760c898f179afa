//! Qn robust scale estimator over a bounded sliding window of integer samples.
//!
//! The raw statistic is a fixed order statistic of the virtual matrix of all
//! pairwise sample differences; it is found without materializing the matrix
//! by a recursive selection over progressively coarser strided sub-matrices,
//! each level's picks certified against linear-time rank counts.

mod dash_iter;
mod estimator;
mod lazy_list;
mod matrix;
mod median;
mod pick_list;
mod rank;
mod scale;
mod select;
mod sorted_vec;
mod window;

pub use crate::dash_iter::{lemma_stride_ends, stride_len, stride_pos, stride_seq, DashIter};
pub use crate::estimator::{fifo_extend, fifo_push, qn_rank, QnScaleEstimator};
pub use crate::lazy_list::LazyList;
pub use crate::matrix::{
    between_pred, bounded_vals, count_eq, count_gt, count_lt, is_ascending, kth_smallest,
    matrix_entry, matrix_seq, row_seq, sort64, MAX_SAMPLE_MAGNITUDE, MAX_WINDOW_LEN,
};
pub use crate::median::{median_value, trunc_half, RawMedian};
pub use crate::pick_list::pick_list;
pub use crate::rank::{lemma_rank_partition, n_greater, n_smaller};
pub use crate::scale::ScaleEstimate;
pub use crate::select::select_kth_statistic;
pub use crate::sorted_vec::SortedVec;
pub use crate::window::Window;

