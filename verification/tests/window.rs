use fqn_estimator::Window;

/// FIFO eviction: once the window is full, each push evicts and returns the
/// oldest sample.
#[test]
fn window_fifo_ok() {
    let mut window = Window::with_capacity(2);
    assert_eq!(window.push(1), None);
    assert_eq!(window.push(2), None);
    assert_eq!(window.push(3), Some(1));
    assert_eq!(window.push(4), Some(2));
    assert_eq!(window.len(), 2);
}

#[test]
fn window_clear_ok() {
    let mut window = Window::with_capacity(3);
    window.push(7);
    window.push(8);
    window.clear();
    assert_eq!(window.len(), 0);
    assert_eq!(window.push(9), None);
}
