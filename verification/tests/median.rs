use nexus::median::WindowedMedianI64;

#[test]
fn i64_basic() {
    let mut wm = WindowedMedianI64::new(5);
    for v in [3, 1, 4, 1, 5] {
        wm.update(v);
    }
    assert_eq!(wm.median(), Some(3));
}

#[test]
fn i64_even_window_averages_middle_pair() {
    let mut wm = WindowedMedianI64::new(4);
    for v in [1, 3, 5, 7] {
        wm.update(v);
    }
    assert_eq!(wm.median(), Some(4));
}

#[test]
fn i64_empty_and_single() {
    let mut wm = WindowedMedianI64::new(10);
    assert_eq!(wm.median(), None);
    assert_eq!(wm.mad(), None);
    wm.update(42);
    assert_eq!(wm.median(), Some(42));
}

#[test]
fn i64_mad() {
    let mut wm = WindowedMedianI64::new(5);
    for v in [1, 2, 3, 4, 5] {
        wm.update(v);
    }
    // median 3, deviations [2, 1, 0, 1, 2] sorted [0, 1, 1, 2, 2]
    assert_eq!(wm.mad(), Some(1));
}

#[test]
fn i64_quartiles() {
    let mut wm = WindowedMedianI64::new(8);
    for v in 1..=8 {
        wm.update(v);
    }
    let q1 = wm.q1().unwrap();
    let q3 = wm.q3().unwrap();
    assert!(q3 > q1);
    assert_eq!(wm.iqr(), Some(q3 - q1));
}

#[test]
fn i64_window_rolls() {
    let mut wm = WindowedMedianI64::new(3);
    wm.update(10);
    wm.update(20);
    wm.update(30);
    assert_eq!(wm.median(), Some(20));
    wm.update(100); // evicts 10
    assert_eq!(wm.median(), Some(30));
}

#[test]
fn i64_priming_and_reset() {
    let mut wm = WindowedMedianI64::new(3);
    wm.update(1);
    wm.update(1);
    assert!(!wm.is_primed());
    wm.update(1);
    assert!(wm.is_primed());
    assert_eq!(wm.count(), 3);
    assert_eq!(wm.window_size(), 3);
    wm.reset();
    assert_eq!(wm.count(), 0);
    assert!(wm.median().is_none());
}

#[test]
fn i64_modified_z_score() {
    let mut wm = WindowedMedianI64::new(5);
    for v in [1, 2, 3, 4, 5] {
        wm.update(v);
    }
    let z = wm.modified_z_score(10).unwrap();
    assert!(z > 0);
    // median 3, MAD 1: 0.6745 * 7 = 4.72
    assert_eq!(z, 4);
    assert_eq!(wm.modified_z_score(-4), Some(-4));
}

#[test]
fn even_window_median_rounds_towards_zero() {
    let mut wm = WindowedMedianI64::new(2);
    wm.update(-3);
    wm.update(0);
    assert_eq!(wm.median(), Some(-1));
    wm.update(3);
    assert_eq!(wm.median(), Some(1));
}

#[test]
fn nth_smallest_walks_the_sorted_window() {
    let mut m = WindowedMedianI64::new(3);
    assert_eq!(m.len(), 0);
    for v in [5, -2, 9, 1] {
        m.update(v);
    }
    // 5 has left the window
    assert_eq!(m.len(), 3);
    assert_eq!((m.nth_smallest(0), m.nth_smallest(1), m.nth_smallest(2)), (-2, 1, 9));
}
