use usb_logger::ring::RingBuffer;

#[test]
fn write_then_read_in_order() {
    let mut buf = RingBuffer::new(8);
    assert_eq!(buf.write_best_effort(b"abc"), 3);
    assert_eq!(buf.write_best_effort(b"de"), 2);
    assert_eq!(buf.len(), 5);
    let out = buf.try_read(8);
    assert_eq!(out, b"abcde".to_vec());
    assert!(buf.is_empty());
}

#[test]
fn read_returns_at_most_requested() {
    let mut buf = RingBuffer::new(8);
    assert_eq!(buf.write_best_effort(b"abcdef"), 6);
    assert_eq!(buf.try_read(4), b"abcd".to_vec());
    assert_eq!(buf.try_read(4), b"ef".to_vec());
    assert_eq!(buf.try_read(4), Vec::<u8>::new());
}

#[test]
fn wraparound_retry_accepts_remainder() {
    let mut buf = RingBuffer::new(4);
    assert_eq!(buf.write_best_effort(b"abc"), 3);
    assert_eq!(buf.try_read(2), b"ab".to_vec());
    // The free region now wraps: a single low-level write stops at the end
    // of the storage, the immediate retry fills the rest.
    assert_eq!(buf.try_write(b"xyz"), 1);
    let mut buf2 = RingBuffer::new(4);
    assert_eq!(buf2.write_best_effort(b"abc"), 3);
    assert_eq!(buf2.try_read(2), b"ab".to_vec());
    assert_eq!(buf2.write_best_effort(b"xyz"), 3);
    assert_eq!(buf2.try_read(4), b"cxyz".to_vec());
}

#[test]
fn write_to_full_buffer_accepts_nothing() {
    let mut buf = RingBuffer::new(2);
    assert_eq!(buf.write_best_effort(b"ab"), 2);
    assert_eq!(buf.write_best_effort(b"cd"), 0);
    assert_eq!(buf.try_read(2), b"ab".to_vec());
}

#[test]
fn oversized_write_partially_accepted() {
    let mut buf = RingBuffer::new(4);
    assert_eq!(buf.write_best_effort(b"abcdef"), 4);
    assert_eq!(buf.capacity(), 4);
    assert_eq!(buf.free_len(), 0);
    assert_eq!(buf.try_read(6), b"abcd".to_vec());
    // Retrying with the unaccepted remainder delivers the rest.
    assert_eq!(buf.write_best_effort(b"ef"), 2);
    assert_eq!(buf.try_read(6), b"ef".to_vec());
}
