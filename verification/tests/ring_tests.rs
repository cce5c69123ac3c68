use overwatchd::ring::RingBuffer;

#[test]
fn push_within_capacity_preserves_order() {
    let mut r = RingBuffer::new(4);
    for v in [1, 2, 3] {
        r.push(v);
    }
    assert_eq!(r.len(), 3);
    assert_eq!(r.to_vec(), vec![1, 2, 3]);
}

#[test]
fn push_over_capacity_overwrites_oldest() {
    let mut r = RingBuffer::new(3);
    for v in [1, 2, 3, 4, 5] {
        r.push(v);
    }
    assert_eq!(r.len(), 3);
    assert_eq!(r.to_vec(), vec![3, 4, 5]);
}

#[test]
fn zero_capacity_keeps_last_item() {
    let mut r = RingBuffer::new(0);
    r.push(7);
    r.push(8);
    assert_eq!(r.to_vec(), vec![8]);
}

#[test]
fn ring_keeps_newest_items_oldest_first() {
    // a ring of capacity 4 fed 10 items holds the last 4, oldest first
    let mut r = RingBuffer::new(4);
    for v in 0..10 {
        r.push(v);
    }
    assert_eq!(r.to_vec(), vec![6, 7, 8, 9]);
    let refs: Vec<i32> = r.iter().into_iter().copied().collect();
    assert_eq!(refs, vec![6, 7, 8, 9]);
}

#[test]
fn new_ring_is_empty() {
    let r: RingBuffer<u8> = RingBuffer::new(5);
    assert!(r.is_empty());
    assert_eq!(r.len(), 0);
    assert_eq!(r.to_vec(), Vec::<u8>::new());
}
