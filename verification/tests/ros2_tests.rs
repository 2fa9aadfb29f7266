//! Tests for the host-payload synchronization state.

use std::collections::VecDeque;

use multi_stream_synchronizer::ros2::{Ros2Message, Ros2SyncState};

fn ms(v: u64) -> u64 {
    v * 1_000_000
}

fn rmsg(topic: &str, timestamp_ms: u64) -> Ros2Message<u32> {
    Ros2Message::new(topic.to_string(), ms(timestamp_ms), 0u32, (0, 0))
}

#[test]
fn test_buffer_basic_operations() {
    // the underlying queue discipline, on plain timestamps
    let mut buffer: VecDeque<u64> = VecDeque::with_capacity(3);

    buffer.push_back(ms(100));
    buffer.push_back(ms(200));
    assert_eq!(buffer.len(), 2);

    let front = buffer.pop_front();
    assert_eq!(front, Some(ms(100)));
    assert_eq!(buffer.len(), 1);
}

#[test]
fn test_sync_state_creation() {
    let topics = vec!["/topic_a".to_string(), "/topic_b".to_string()];
    let state: Ros2SyncState<u32> = Ros2SyncState::new(topics, ms(50), 10);

    assert_eq!(state.num_topics(), 2);
    assert!(!state.is_ready());
    assert_eq!(state.commit_timestamp(), 0);
}

#[test]
fn test_sync_state_matching() {
    let topics = vec!["/a".to_string(), "/b".to_string()];
    let mut state: Ros2SyncState<u32> = Ros2SyncState::new(topics, ms(50), 10);

    state.push(rmsg("/a", 1000)).unwrap();
    assert!(!state.is_ready());
    state.push(rmsg("/b", 1010)).unwrap();
    assert!(state.is_ready());

    let group = state.try_match().unwrap();
    assert_eq!(group.len(), 2);
    assert_eq!(group[0].0, "/a");
    assert_eq!(group[0].1.timestamp, ms(1000));
    assert_eq!(group[1].1.timestamp, ms(1010));
    assert_eq!(state.commit_timestamp(), ms(1000));
    assert_eq!(state.stats().groups_emitted, 1);

    // a message stamped before the commit cursor is late
    assert!(state.push(rmsg("/a", 900)).is_err());
}

#[test]
fn test_sync_state_drops_oldest_on_mismatch() {
    let topics = vec!["/a".to_string(), "/b".to_string()];
    let mut state: Ros2SyncState<u32> = Ros2SyncState::new(topics, ms(50), 10);

    state.push(rmsg("/a", 1000)).unwrap();
    state.push(rmsg("/b", 1200)).unwrap();

    // fronts too far apart: no group, the oldest front is sacrificed
    assert!(state.try_match().is_none());
    assert_eq!(state.stats().dropped, 1);

    state.push(rmsg("/a", 1190)).unwrap();
    let group = state.try_match().unwrap();
    assert_eq!(group[0].1.timestamp, ms(1190));
    assert_eq!(group[1].1.timestamp, ms(1200));
}

#[test]
fn test_sync_state_unknown_topic() {
    let topics = vec!["/a".to_string()];
    let mut state: Ros2SyncState<u32> = Ros2SyncState::new(topics, ms(50), 10);
    assert!(state.push(rmsg("/other", 1000)).is_err());
}
