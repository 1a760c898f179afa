use fqn_estimator::DashIter;

/// Test the corner case with just one element.
#[test]
fn dash_iter_one_ok() {
    let dash_iter = DashIter::new(&vec![1], 2);
    assert_eq!(dash_iter.len(), 1);
    assert_eq!(dash_iter.to_vec(), vec![1]);
}

#[test]
fn dash_iter_multiple_ok() {
    let mut window = vec![1, 2, 3, 4, 5, 6, 7, 8, 9, 10, 11, 12, 13, 14, 15, 16];

    // 1 2 3 4 5 6 7 8 9 10 11 12 13 14 15 16
    // ^   ^   ^   ^   ^    ^     ^     ^  ^
    let dash_iter = DashIter::new(&window, 2);
    window = dash_iter.to_vec();
    assert_eq!(dash_iter.len(), window.len());
    assert_eq!(window, vec![1, 3, 5, 7, 9, 11, 13, 15, 16]);

    // 1 3 5 7 9 11 13 15 16
    // ^     ^      ^     ^
    let dash_iter = DashIter::new(&window, 3);
    window = dash_iter.to_vec();
    assert_eq!(dash_iter.len(), window.len());
    assert_eq!(window, vec![1, 7, 13, 16]);

    // 1 7 13 16
    // ^      ^
    let dash_iter = DashIter::new(&window, 4);
    window = dash_iter.to_vec();
    assert_eq!(dash_iter.len(), window.len());
    assert_eq!(window, vec![1, 16]);

    // 1 16
    // ^ ^
    let dash_iter = DashIter::new(&window, 2);
    window = dash_iter.to_vec();
    assert_eq!(dash_iter.len(), window.len());
    assert_eq!(window, vec![1, 16]);
}

#[test]
fn dash_iter_non_multiple_ok() {
    let mut window = vec![1, 2, 3, 4, 5, 6, 7, 8, 9, 10, 11, 12, 13, 14, 15, 16];

    // 1 2 3 4 5 6 7 8 9 10 11 12 13 14 15 16
    // ^     ^     ^     ^        ^        ^
    let dash_iter = DashIter::new(&window, 3);
    window = dash_iter.to_vec();
    assert_eq!(dash_iter.len(), window.len());
    assert_eq!(window, vec![1, 4, 7, 10, 13, 16]);

    // 1 4 7 10 13 16
    // ^           ^
    let dash_iter = DashIter::new(&window, 100);
    window = dash_iter.to_vec();
    assert_eq!(dash_iter.len(), window.len());
    assert_eq!(window, vec![1, 16]);
}

/// The view's length follows `1 + ceil((n - 1) / step)` and the view keeps
/// the base sequence's first and last elements, for every length and stride.
#[test]
fn dash_iter_length_law_ok() {
    for n in 1usize..=24 {
        let base: Vec<i64> = (0..n as i64).map(|x| 10 * x + 3).collect();
        for step in 1usize..=10 {
            let dash = DashIter::new(&base, step);
            let items = dash.to_vec();
            let expected_len = 1 + (n - 1 + step - 1) / step;
            assert_eq!(dash.len(), expected_len);
            assert_eq!(items.len(), expected_len);
            assert_eq!(items[0], base[0]);
            assert_eq!(*items.last().unwrap(), *base.last().unwrap());
        }
    }
}
