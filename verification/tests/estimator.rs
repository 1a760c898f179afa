use fqn_estimator::{QnScaleEstimator, RawMedian};

#[test]
fn estimator_empty_ok() {
    let estimator = QnScaleEstimator::new(1);
    assert_eq!(estimator.estimate(), None);
}

#[test]
fn two_samples_ok() {
    let mut estimator = QnScaleEstimator::new(2);
    estimator.push(1);
    estimator.push(2);

    let scale = estimator.estimate().unwrap();
    assert_eq!(scale.n_samples, 2);
    assert_eq!(scale.statistic, 1);
}

#[test]
fn window_overflow_ok() {
    let samples = vec![
        2, 78, 1, 4, 19, 37, 68, 91, 42, 42, 75, 40, 4, 18, 18, 77, 9, 78, 57, 99,
    ];

    let mut estimator = QnScaleEstimator::new(10);
    estimator.extend(&samples);

    let scale = estimator.estimate().unwrap();
    assert_eq!(scale.n_samples, 10);
    assert_eq!(scale.statistic, 22);
}

/// The canonical full-window regression fixture: 100 samples with the window
/// capacity equal to the full length.
#[test]
fn full_window_ok() {
    let samples: Vec<i64> = vec![
        871, 364, 629, 714, 739, 800, 769, 446, 703, 180, 309, 2, 211, 696, 577, 934, 919, 532,
        381, 626, 979, 528, 57, 902, 567, 196, 749, 122, 659, 176, 297, 38, 375, 172, 581, 330,
        435, 104, 89, 262, 47, 796, 741, 490, 107, 600, 513, 478, 471, 684, 989, 298, 35, 904,
        585, 582, 695, 172, 965, 978, 35, 240, 577, 6, 983, 700, 661, 834, 3, 568, 697, 166, 175,
        988, 901, 354, 195, 464, 313, 686, 127, 452, 197, 850, 347, 608, 257, 990, 863, 932, 317,
        650, 43, 400, 729, 910, 103, 84, 229, 474,
    ];

    let mut estimator = QnScaleEstimator::new(100);
    estimator.extend(&samples);

    let scale = estimator.estimate().unwrap();
    assert_eq!(scale.n_samples, 100);
    assert_eq!(scale.statistic, 145);
}

/// After `capacity + 1` pushes of distinct values the oldest value no longer
/// affects the estimator: the median and the estimate see only the survivors.
#[test]
fn window_eviction_ok() {
    let mut estimator = QnScaleEstimator::new(2);
    estimator.push(1000);
    estimator.push(4);
    estimator.push(10);

    // the window now holds [4, 10]; 1000 is gone from both structures
    assert_eq!(estimator.median(), Some(RawMedian::Even(4, 10)));
    let scale = estimator.estimate().unwrap();
    assert_eq!(scale.n_samples, 2);
    assert_eq!(scale.statistic, 6);
}

#[test]
fn clear_ok() {
    let mut estimator = QnScaleEstimator::new(3);
    estimator.push(5);
    estimator.push(9);
    estimator.clear();
    assert_eq!(estimator.estimate(), None);
    assert_eq!(estimator.median(), None);
}

#[test]
fn estimator_median_ok() {
    let mut estimator = QnScaleEstimator::new(5);
    estimator.push(9);
    assert_eq!(estimator.median(), Some(RawMedian::Odd(9)));
    estimator.push(1);
    assert_eq!(estimator.median(), Some(RawMedian::Even(1, 9)));
    estimator.push(4);
    assert_eq!(estimator.median(), Some(RawMedian::Odd(4)));
}

/// One sample: the difference matrix is the single entry `0`.
#[test]
fn single_sample_ok() {
    let mut estimator = QnScaleEstimator::new(4);
    estimator.push(37);
    let scale = estimator.estimate().unwrap();
    assert_eq!(scale.n_samples, 1);
    assert_eq!(scale.statistic, 0);
}
