use nexus::fix::ring::Ring;

#[test]
fn fifo_order_and_wraparound() {
    let mut r: Ring<u32, 4> = Ring::new();
    assert!(r.is_empty());
    r.push(1);
    r.push(2);
    assert_eq!(r.pop(), Some(1));
    r.push(3);
    r.push(4);
    r.push(5);
    assert_eq!(r.pop(), Some(2));
    assert_eq!(r.pop(), Some(3));
    assert_eq!(r.pop(), Some(4));
    assert_eq!(r.pop(), Some(5));
    assert_eq!(r.pop(), None);
}

#[test]
fn push_on_full_ring_drops() {
    let mut r: Ring<u8, 2> = Ring::new();
    r.push(1);
    r.push(2);
    r.push(3);
    assert_eq!(r.pop(), Some(1));
    assert_eq!(r.pop(), Some(2));
    assert_eq!(r.pop(), None);
    assert!(r.is_empty());
}
