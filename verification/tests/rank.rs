use fqn_estimator::{n_greater, n_smaller};

/// # Matrix
///
/// ```text
/// 0, -1
/// 1,  0
/// ```
#[test]
fn rank_2x2_ok() {
    let window = vec![1, 2];

    assert_eq!(n_greater(&window, -2), 4);
    assert_eq!(n_greater(&window, -1), 3);
    assert_eq!(n_greater(&window, 0), 1);
    assert_eq!(n_greater(&window, 1), 0);

    assert_eq!(n_smaller(&window, 2), 4);
    assert_eq!(n_smaller(&window, 1), 3);
    assert_eq!(n_smaller(&window, 0), 1);
    assert_eq!(n_smaller(&window, -1), 0);
}

/// # Matrix
///
/// ```text
/// 0, -1, -1
/// 1,  0,  0
/// 1,  0,  0
/// ```
#[test]
fn rank_3x3_with_repetitions_ok() {
    let window = vec![1, 2, 2];

    assert_eq!(n_greater(&window, -2), 9);
    assert_eq!(n_greater(&window, -1), 7);
    assert_eq!(n_greater(&window, 0), 2);
    assert_eq!(n_greater(&window, 1), 0);

    assert_eq!(n_smaller(&window, 2), 9);
    assert_eq!(n_smaller(&window, 1), 7);
    assert_eq!(n_smaller(&window, 0), 2);
    assert_eq!(n_smaller(&window, -1), 0);
}

/// # Matrix
///
/// ```text
/// 0, -1, -2
/// 1,  0, -1
/// 2,  1,  0
/// ```
#[test]
fn rank_3x3_ok() {
    let window = vec![1, 2, 3];

    assert_eq!(n_greater(&window, -3), 9);
    assert_eq!(n_greater(&window, -2), 8);
    assert_eq!(n_greater(&window, -1), 6);
    assert_eq!(n_greater(&window, 0), 3);
    assert_eq!(n_greater(&window, 1), 1);
    assert_eq!(n_greater(&window, 2), 0);

    assert_eq!(n_smaller(&window, 3), 9);
    assert_eq!(n_smaller(&window, 2), 8);
    assert_eq!(n_smaller(&window, 1), 6);
    assert_eq!(n_smaller(&window, 0), 3);
    assert_eq!(n_smaller(&window, -1), 1);
    assert_eq!(n_smaller(&window, -2), 0);
}

/// The two strict rank counts plus the entries equal to the pivot always
/// exhaust the matrix: `count_greater + count_equal + count_less == n * n`.
#[test]
fn rank_partition_ok() {
    let window = vec![-5, -5, 0, 3, 8, 8, 21];
    let n = window.len();
    for pivot in [-40, -13, -5, -1, 0, 2, 3, 5, 8, 13, 26, 99] {
        let greater = n_greater(&window, pivot);
        let smaller = n_smaller(&window, pivot);
        let equal: usize = window
            .iter()
            .flat_map(|a| window.iter().map(move |b| a - b))
            .filter(|d| *d == pivot)
            .count();
        assert_eq!(greater + equal + smaller, n * n);
    }
}
