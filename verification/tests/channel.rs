//! Tests for the bounded import channel.

use blobimport::channel::{BoundedQueue, DEFAULT_CHANNEL_SIZE};

#[test]
fn test_backpressure_refuses_when_full() {
    // With capacity 2, the third unconsumed item is refused and handed
    // back; after the consumer frees capacity it is accepted, and no
    // item is lost or duplicated.
    let mut q: BoundedQueue<u64> = BoundedQueue::new(2);
    assert_eq!(q.try_send(10), None);
    assert_eq!(q.try_send(20), None);
    assert_eq!(q.try_send(30), Some(30));
    assert_eq!(q.len(), 2);

    assert_eq!(q.recv(), Some(10));
    assert_eq!(q.try_send(30), None);
    assert_eq!(q.len(), 2);

    assert_eq!(q.recv(), Some(20));
    assert_eq!(q.recv(), Some(30));
    assert_eq!(q.recv(), None);
}

#[test]
fn test_fifo_order() {
    let mut q: BoundedQueue<Vec<u8>> = BoundedQueue::new(DEFAULT_CHANNEL_SIZE);
    assert_eq!(q.capacity(), 1000);
    let _ = q.try_send(b"first".to_vec());
    let _ = q.try_send(b"second".to_vec());
    assert_eq!(q.recv(), Some(b"first".to_vec()));
    assert_eq!(q.recv(), Some(b"second".to_vec()));
}
