use fqn_estimator::LazyList;

#[test]
fn lazy_l_3x3_ok() {
    // Matrix:
    // 0, -1, -2
    // 1,  0, -1
    // 2,  1,  0
    let mut lazy_l = LazyList::new(vec![1, 2, 3], -2, 2);
    assert_eq!(lazy_l.build(), vec![0, -1, 1, 0, -1, 1, 0]);
}

#[test]
fn lazy_l_2x2_zero_ok() {
    // Zero matrix:
    let mut lazy_l = LazyList::new(vec![1, 1], -1, 1);
    assert_eq!(lazy_l.build(), vec![0, 0, 0, 0]);

    // Zero matrix, corner case:
    let mut lazy_l = LazyList::new(vec![1, 1], 0, 0);
    assert_eq!(lazy_l.build(), vec![]);
}

/// # Matrix
///
/// ```text
/// 0, -1, -2
/// 1,  0, -1
/// 2,  1,  0
/// ```
#[test]
fn lazy_list_3x3_ok() {
    let window = vec![1, 2, 3];

    let mut lazy_l = LazyList::new(window.clone(), -1, 1);
    assert_eq!(lazy_l.build(), vec![0, 0, 0]);

    let mut lazy_l = LazyList::new(window.clone(), -2, 2);
    assert_eq!(lazy_l.build(), vec![0, -1, 1, 0, -1, 1, 0]);

    let mut lazy_l = LazyList::new(window, -3, 3);
    assert_eq!(lazy_l.build(), vec![0, -1, -2, 1, 0, -1, 2, 1, 0]);
}

#[test]
fn lazy_list_2x2_zero_ok() {
    // Zero matrix:
    let mut lazy_l = LazyList::new(vec![1, 1], -1, 1);
    assert_eq!(lazy_l.build(), vec![0, 0, 0, 0]);

    // Zero matrix, corner case:
    let mut lazy_l = LazyList::new(vec![1, 1], 0, 0);
    assert_eq!(lazy_l.build(), vec![]);
}

/// A second `build` serves the same list again.
#[test]
fn lazy_list_memoized_ok() {
    let mut lazy_l = LazyList::new(vec![1, 2, 3], -2, 2);
    let first = lazy_l.build();
    let second = lazy_l.build();
    assert_eq!(first, vec![0, -1, 1, 0, -1, 1, 0]);
    assert_eq!(first, second);
}
