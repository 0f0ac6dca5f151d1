use buddy_alloc::ring::RingBuffer;

/// FIFO order over a 4-slot ring: 3 bytes fit, the 4th is refused.
#[test]
fn push_pop_fifo() {
    let mut r = RingBuffer::new(2, false);
    assert!(r.is_empty());
    assert!(r.push(10));
    assert!(r.push(20));
    assert!(r.push(30));
    assert!(r.is_full());
    assert!(!r.push(40));
    assert_eq!(r.pop(), Some(10));
    assert_eq!(r.pop(), Some(20));
    assert_eq!(r.pop(), Some(30));
    assert_eq!(r.pop(), None);
    assert!(r.is_empty());
}

/// Under the overwrite policy a full ring drops its oldest byte.
#[test]
fn overwrite_drops_oldest() {
    let mut r = RingBuffer::new(2, true);
    assert!(r.push(1));
    assert!(r.push(2));
    assert!(r.push(3));
    assert!(r.is_full());
    assert!(r.push(4));
    assert_eq!(r.pop(), Some(2));
    assert_eq!(r.pop(), Some(3));
    assert_eq!(r.pop(), Some(4));
    assert_eq!(r.pop(), None);
}

/// Wrap-around: the indices mask correctly past the end of the buffer.
#[test]
fn wraps_around() {
    let mut r = RingBuffer::new(2, false);
    for round in 0..10u8 {
        assert!(r.push(round));
        assert_eq!(r.pop(), Some(round));
    }
    assert!(r.is_empty());
}
