use fqn_estimator::RawMedian;

#[test]
fn median_odd_ok() {
    assert_eq!(RawMedian::Odd(42).to_median(), 42);
}

#[test]
fn median_even_ok() {
    assert_eq!(RawMedian::Even(42, 44).to_median(), 43);
}

/// The even-sized average rounds toward zero, as integer division does.
#[test]
fn median_even_rounding_ok() {
    assert_eq!(RawMedian::Even(3, 4).to_median(), 3);
    assert_eq!(RawMedian::Even(-4, -3).to_median(), -3);
    assert_eq!(RawMedian::Even(-5, -4).to_median(), -4);
    assert_eq!(RawMedian::Even(-5, 5).to_median(), 0);
}
