use fqn_estimator::pick_list;

/// # Matrix
///
/// ```text
/// 0, -1, -2
/// 1,  0, -1
/// 2,  1,  0
/// ```
#[test]
fn pick_list_3x3_ok() {
    let window = vec![1, 2, 3];
    let mut buffer = Vec::new();

    pick_list(&window, -1, 1, &mut buffer);
    assert_eq!(buffer, [0, 0, 0]);

    pick_list(&window, -2, 2, &mut buffer);
    assert_eq!(buffer, [0, -1, 1, 0, -1, 1, 0]);

    pick_list(&window, -3, 3, &mut buffer);
    assert_eq!(buffer, [0, -1, -2, 1, 0, -1, 2, 1, 0]);
}

#[test]
fn pick_list_2x2_zero_ok() {
    let mut buffer = Vec::new();

    // Zero matrix:
    pick_list(&vec![1, 1], -1, 1, &mut buffer);
    assert_eq!(buffer, [0, 0, 0, 0]);

    // Zero matrix, corner case:
    pick_list(&vec![1, 1], 0, 0, &mut buffer);
    assert_eq!(buffer, []);
}

#[test]
fn l_ok() {
    let mut buffer = Vec::new();

    // Matrix:
    // 0, -1, -2
    // 1,  0, -1
    // 2,  1,  0
    pick_list(&vec![1, 2, 3], -2, 2, &mut buffer);
    assert_eq!(buffer, [0, -1, 1, 0, -1, 1, 0]);

    // Zero matrix:
    pick_list(&vec![1, 1], -1, 1, &mut buffer);
    assert_eq!(buffer, [0, 0, 0, 0]);

    // Zero matrix, corner case:
    pick_list(&vec![1, 1], 0, 0, &mut buffer);
    assert_eq!(buffer, []);
}

/// For every small window, the extracted candidates equal, as a multiset, the
/// brute-force enumeration of matrix entries strictly between the bounds.
#[test]
fn pick_list_completeness_ok() {
    let windows: Vec<Vec<i64>> = vec![
        vec![4],
        vec![-3, 9],
        vec![1, 1, 5],
        vec![-7, -2, 0, 4],
        vec![2, 2, 2, 6, 11],
        vec![-9, -4, -4, 1, 8, 20],
    ];
    for window in windows {
        for (lo, hi) in [(-30, 30), (-5, 5), (-1, 2), (0, 0), (3, 9)] {
            let mut buffer = Vec::new();
            pick_list(&window, lo, hi, &mut buffer);
            let mut expected: Vec<i64> = window
                .iter()
                .flat_map(|a| window.iter().map(move |b| a - b))
                .filter(|d| lo < *d && *d < hi)
                .collect();
            expected.sort();
            buffer.sort();
            assert_eq!(buffer, expected);
        }
    }
}
