use fqn_estimator::select_kth_statistic;

/// The `k`-th entries of the brute-force sorted difference matrix.
fn brute_force(window: &[i64]) -> Vec<i64> {
    let mut entries: Vec<i64> = window
        .iter()
        .flat_map(|a| window.iter().map(move |b| a - b))
        .collect();
    entries.sort();
    entries
}

/// # Matrix
///
/// ```text
/// 0 -1
/// 1  0
/// ```
#[test]
fn select_select_2x2_ok() {
    let window = vec![1, 2];
    let statistics: Vec<_> = (1..=4).map(|k| select_kth_statistic(&window, k)).collect();
    assert_eq!(statistics, [-1, 0, 0, 1]);
}

/// # Matrix
///
/// ```text
/// 0, -1, -2
/// 1,  0, -1
/// 2,  1,  0
/// ```
#[test]
fn select_select_3x3_ok() {
    let window = vec![1, 2, 3];
    let statistics: Vec<_> = (1..=9).map(|k| select_kth_statistic(&window, k)).collect();
    assert_eq!(statistics, [-2, -1, -1, 0, 0, 0, 1, 1, 2]);
}

#[test]
fn bi_select_select_2x2_ok() {
    // Matrix:
    // 0 -1
    // 1  0
    let window = vec![1, 2];
    let statistics: Vec<_> = (1..=4).map(|k| select_kth_statistic(&window, k)).collect();
    assert_eq!(statistics, [-1, 0, 0, 1]);
}

#[test]
fn bi_select_select_3x3_ok() {
    // Matrix:
    // 0, -1, -2
    // 1,  0, -1
    // 2,  1,  0
    let window = vec![1, 2, 3];
    let statistics: Vec<_> = (1..=9).map(|k| select_kth_statistic(&window, k)).collect();
    assert_eq!(statistics, [-2, -1, -1, 0, 0, 0, 1, 1, 2]);
}

/// # Matrix
///
/// ```text
/// 0, -1, -2, -3
/// 1,  0, -1, -2
/// 2,  1,  0, -1
/// 3,  2,  1,  0
/// ```
#[test]
fn select_4x4_ok() {
    let window = vec![1, 2, 3, 4];
    let statistics: Vec<_> = (1..=16).map(|k| select_kth_statistic(&window, k)).collect();
    assert_eq!(
        statistics,
        [-3, -2, -2, -1, -1, -1, 0, 0, 0, 0, 1, 1, 1, 2, 2, 3]
    );
}

/// # Matrix
///
/// ```text
/// 0, -1, -2, -3, -4
/// 1,  0, -1, -2, -3
/// 2,  1,  0, -1, -2
/// 3,  2,  1,  0, -1
/// 4,  3,  2,  1,  0
/// ```
#[test]
fn select_5x5_ok() {
    let window = vec![1, 2, 3, 4, 5];
    let statistics: Vec<_> = (1..=25).map(|k| select_kth_statistic(&window, k)).collect();
    assert_eq!(
        statistics,
        [
            -4, -3, -3, -2, -2, -2, -1, -1, -1, -1, 0, 0, 0, 0, 0, 1, 1, 1, 1, 2, 2, 2, 3, 3, 4
        ]
    );
}

/// A window of one sample: the matrix holds a single zero.
#[test]
fn select_1x1_ok() {
    assert_eq!(select_kth_statistic(&vec![42], 1), 0);
}

/// For every rank, the selection equals the brute-force order statistic of
/// the fully materialized sorted matrix.
#[test]
fn select_equivalence_ok() {
    let windows: Vec<Vec<i64>> = vec![
        vec![-3, 8],
        vec![0, 0, 0],
        vec![-10, -4, 1, 1, 2, 7, 7, 19, 40],
        vec![2, 3, 5, 8, 13, 21, 34, 55],
        vec![-25, -25, -7, 0, 4, 4, 4, 11, 30, 52, 52],
    ];
    for window in windows {
        let expected = brute_force(&window);
        let n = window.len();
        for k in 1..=n * n {
            assert_eq!(select_kth_statistic(&window, k), expected[k - 1]);
        }
    }
}
