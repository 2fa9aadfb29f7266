//! Tests for the per-stream ordered buffer.

use multi_stream_synchronizer::buffer::Buffer;
use multi_stream_synchronizer::message::PlainMessage;

fn ms(v: u64) -> u64 {
    v * 1_000_000
}

fn create_message(timestamp_ms: u64) -> PlainMessage {
    PlainMessage::new(ms(timestamp_ms), None, vec![])
}

fn create_messages(timestamps_ms: &[u64]) -> Vec<PlainMessage> {
    timestamps_ms.iter().map(|&ts| create_message(ts)).collect()
}

fn timed_message(timestamp_ms: u64, timeout_ms: Option<u64>) -> PlainMessage {
    PlainMessage::new(ms(timestamp_ms), timeout_ms.map(ms), vec![])
}

#[test]
fn test_buffer_with_capacity() {
    let buffer: Buffer<PlainMessage> = Buffer::with_capacity(5);
    assert_eq!(buffer.len(), 0);
    assert!(buffer.is_empty());
}

#[test]
fn test_buffer_len_and_is_empty() {
    let mut buffer = Buffer::with_capacity(3);

    assert_eq!(buffer.len(), 0);
    assert!(buffer.is_empty());

    let msg1 = create_message(1000);
    buffer.try_push(msg1).unwrap();

    assert_eq!(buffer.len(), 1);
    assert!(!buffer.is_empty());

    let msg2 = create_message(2000);
    buffer.try_push(msg2).unwrap();

    assert_eq!(buffer.len(), 2);
    assert!(!buffer.is_empty());
}

#[test]
fn test_buffer_front_and_back() {
    let mut buffer = Buffer::with_capacity(3);

    assert!(buffer.front().is_none());
    assert!(buffer.back().is_none());

    buffer.try_push(create_message(1000)).unwrap();
    assert_eq!(buffer.front().unwrap().timestamp, ms(1000));
    assert_eq!(buffer.back().unwrap().timestamp, ms(1000));

    buffer.try_push(create_message(2000)).unwrap();
    assert_eq!(buffer.front().unwrap().timestamp, ms(1000));
    assert_eq!(buffer.back().unwrap().timestamp, ms(2000));

    buffer.try_push(create_message(3000)).unwrap();
    assert_eq!(buffer.front().unwrap().timestamp, ms(1000));
    assert_eq!(buffer.back().unwrap().timestamp, ms(3000));
}

#[test]
fn test_buffer_pop_front() {
    let mut buffer = Buffer::with_capacity(3);

    assert!(buffer.pop_front().is_none());

    buffer.try_push(create_message(1000)).unwrap();
    buffer.try_push(create_message(2000)).unwrap();

    let popped = buffer.pop_front().unwrap();
    assert_eq!(popped.timestamp, ms(1000));
    assert_eq!(buffer.len(), 1);

    let popped = buffer.pop_front().unwrap();
    assert_eq!(popped.timestamp, ms(2000));
    assert_eq!(buffer.len(), 0);
    assert!(buffer.is_empty());
}

#[test]
fn test_buffer_drop_before_empty() {
    let mut buffer: Buffer<PlainMessage> = Buffer::with_capacity(3);
    let dropped = buffer.drop_before(ms(1000));
    assert_eq!(dropped, 0);
}

#[test]
fn test_buffer_drop_before_single_message() {
    let mut buffer = Buffer::with_capacity(3);
    buffer.try_push(create_message(1000)).unwrap();

    let dropped = buffer.drop_before(ms(1500));
    assert_eq!(dropped, 1);
    assert!(buffer.is_empty());
}

#[test]
fn test_buffer_drop_before_multiple_messages() {
    let mut buffer = Buffer::with_capacity(5);
    for msg in create_messages(&[1000, 1500, 2000, 2500, 3000]) {
        buffer.try_push(msg).unwrap();
    }

    let dropped = buffer.drop_before(ms(2200));
    assert_eq!(dropped, 3);
    assert_eq!(buffer.len(), 2);
    assert_eq!(buffer.front().unwrap().timestamp, ms(2500));
}

#[test]
fn test_buffer_try_push_valid_timestamp() {
    let mut buffer = Buffer::with_capacity(3);

    let result = buffer.try_push(create_message(1000));
    assert!(result.is_ok());
    assert_eq!(buffer.len(), 1);

    let result = buffer.try_push(create_message(2000));
    assert!(result.is_ok());
    assert_eq!(buffer.len(), 2);
}

#[test]
fn test_buffer_try_push_out_of_order_rejection() {
    let mut buffer = Buffer::with_capacity(3);

    buffer.try_push(create_message(2000)).unwrap();

    let result = buffer.try_push(create_message(1000));
    assert!(result.is_err());
    assert_eq!(buffer.len(), 1);
}

#[test]
fn test_buffer_watermark_persists_after_pop() {
    // the watermark keeps the stream from rewinding via stale timestamps
    let mut buffer = Buffer::with_capacity(3);
    buffer.try_push(create_message(2000)).unwrap();
    buffer.pop_front().unwrap();
    assert!(buffer.is_empty());

    let result = buffer.try_push(create_message(1500));
    assert!(result.is_err());
    let result = buffer.try_push(create_message(2000));
    assert!(result.is_err());
    let result = buffer.try_push(create_message(2001));
    assert!(result.is_ok());
}

#[test]
fn test_buffer_allows_unlimited_growth() {
    let mut buffer = Buffer::with_capacity(2);

    assert!(buffer.try_push(create_message(1000)).is_ok());
    assert!(buffer.try_push(create_message(2000)).is_ok());

    // the buffer itself does not enforce capacity; the owner does
    let result = buffer.try_push(create_message(3000));
    assert!(result.is_ok());
    assert_eq!(buffer.len(), 3);
}

#[test]
fn test_drop_expired_no_timeout_messages() {
    let mut buffer = Buffer::with_capacity(3);

    buffer.try_push(timed_message(1000, None)).unwrap();
    buffer.try_push(timed_message(2000, None)).unwrap();

    let dropped = buffer.drop_expired(ms(5000));
    assert_eq!(dropped, 0);
    assert_eq!(buffer.len(), 2);
}

#[test]
fn test_drop_expired_with_timeout_not_expired() {
    let mut buffer = Buffer::with_capacity(3);

    buffer.try_push(timed_message(1000, Some(1000))).unwrap();
    buffer.try_push(timed_message(2000, Some(2000))).unwrap();

    // at 2500 the first message (expires at 2000) is gone, the second
    // (expires at 4000) survives
    let dropped = buffer.drop_expired(ms(2500));
    assert_eq!(dropped, 1);
    assert_eq!(buffer.len(), 1);
    assert_eq!(buffer.front().unwrap().timestamp, ms(2000));
}

#[test]
fn test_drop_expired_all_expired() {
    let mut buffer = Buffer::with_capacity(3);

    buffer.try_push(timed_message(1000, Some(500))).unwrap();
    buffer.try_push(timed_message(2000, Some(1000))).unwrap();

    let dropped = buffer.drop_expired(ms(4000));
    assert_eq!(dropped, 2);
    assert!(buffer.is_empty());
}

#[test]
fn test_drop_expired_mixed_timeout_and_no_timeout() {
    let mut buffer = Buffer::with_capacity(4);

    buffer.try_push(timed_message(1000, Some(500))).unwrap();
    buffer.try_push(timed_message(2000, None)).unwrap();
    buffer.try_push(timed_message(3000, Some(1000))).unwrap();

    let dropped = buffer.drop_expired(ms(2000));
    assert_eq!(dropped, 1);
    assert_eq!(buffer.len(), 2);
    assert_eq!(buffer.front().unwrap().timestamp, ms(2000));
}
