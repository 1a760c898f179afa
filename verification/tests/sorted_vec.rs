use fqn_estimator::{RawMedian, SortedVec};

#[test]
fn sorted_vec_empty_ok() {
    assert_eq!(SortedVec(vec![]).median(), None);
}

#[test]
fn sorted_vec_odd_ok() {
    assert_eq!(SortedVec(vec![1, 2, 3, 4, 5]).median(), Some(RawMedian::Odd(3)));
}

#[test]
fn sorted_vec_even_ok() {
    assert_eq!(
        SortedVec(vec![1, 2, 3, 4, 5, 6]).median(),
        Some(RawMedian::Even(3, 4))
    );
}

/// Insertion keeps ascending order; removal takes out one occurrence and
/// reports absence.
#[test]
fn sorted_vec_insert_remove_ok() {
    let mut sorted = SortedVec(vec![]);
    for value in [5, 1, 9, 5, -3] {
        sorted.insert_sorted(value);
    }
    assert_eq!(sorted.0, vec![-3, 1, 5, 5, 9]);

    assert_eq!(sorted.remove_value(5), Some(5));
    assert_eq!(sorted.0, vec![-3, 1, 5, 9]);

    assert_eq!(sorted.remove_value(7), None);
    assert_eq!(sorted.0, vec![-3, 1, 5, 9]);

    assert_eq!(sorted.remove_value(-3), Some(-3));
    assert_eq!(sorted.0, vec![1, 5, 9]);
}
