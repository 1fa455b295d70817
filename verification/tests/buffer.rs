use r2_relay::buffer::RingBuffer;

#[test]
fn push_and_evict() {
    let mut buf = RingBuffer::new(3);
    buf.push(vec![1], 100);
    buf.push(vec![2], 200);
    buf.push(vec![3], 300);
    assert_eq!(buf.len(), 3);
    assert_eq!(buf.oldest_timestamp(), 100);

    buf.push(vec![4], 400);
    assert_eq!(buf.len(), 3);
    assert_eq!(buf.oldest_timestamp(), 200);
}

#[test]
fn since_filter() {
    let mut buf = RingBuffer::new(10);
    buf.push(vec![1], 100);
    buf.push(vec![2], 200);
    buf.push(vec![3], 300);

    let frames = buf.since(150);
    assert_eq!(frames.len(), 2);
    assert_eq!(frames[0].data, vec![2]);
    assert_eq!(frames[1].data, vec![3]);
}

#[test]
fn empty_buffer_has_oldest_zero() {
    let buf = RingBuffer::new(4);
    assert_eq!(buf.len(), 0);
    assert_eq!(buf.oldest_timestamp(), 0);
    assert!(buf.since(0).is_empty());
}

#[test]
fn zero_capacity_keeps_latest_frame() {
    let mut buf = RingBuffer::new(0);
    buf.push(vec![1], 10);
    assert_eq!(buf.len(), 1);
    buf.push(vec![2], 20);
    assert_eq!(buf.len(), 1);
    assert_eq!(buf.oldest_timestamp(), 20);
    assert_eq!(buf.since(0)[0].data, vec![2]);
}

#[test]
fn eviction_keeps_newest_in_order() {
    let mut buf = RingBuffer::new(2);
    for t in 1..=5u64 {
        buf.push(vec![t as u8], t * 10);
        assert!(buf.len() <= 2);
    }
    let frames = buf.since(0);
    assert_eq!(frames.len(), 2);
    assert_eq!(frames[0].timestamp, 40);
    assert_eq!(frames[1].timestamp, 50);
    assert_eq!(frames[1].data, vec![5]);
}

#[test]
fn since_is_strictly_newer() {
    let mut buf = RingBuffer::new(5);
    buf.push(vec![1], 100);
    buf.push(vec![2], 200);
    assert_eq!(buf.since(200).len(), 0);
    assert_eq!(buf.since(199).len(), 1);
    assert_eq!(buf.since(99).len(), 2);
}

#[test]
fn catchup_sees_latest_pushed_frame() {
    let mut buf = RingBuffer::new(3);
    for t in 1..=4u64 {
        buf.push(vec![t as u8], t);
    }
    buf.push(vec![42], 1000);
    let frames = buf.since(999);
    assert_eq!(frames.len(), 1);
    assert_eq!(frames[frames.len() - 1].data, vec![42]);
}
