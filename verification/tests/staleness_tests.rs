//! Tests for the staleness detector: the constrained heap, the timer
//! wheel, and their combination.

use multi_stream_synchronizer::message::PlainMessage;
use multi_stream_synchronizer::staleness::{ConstrainedHeap, StalenessConfig, StalenessDetector};

fn ms(v: u64) -> u64 {
    v * 1_000_000
}

fn msg(timestamp_ms: u64) -> PlainMessage {
    PlainMessage::new(ms(timestamp_ms), None, vec![])
}

#[test]
fn test_staleness_config_defaults() {
    let config = StalenessConfig::default();
    assert_eq!(config.heap_max_size, 256);
    assert_eq!(config.heap_time_horizon, ms(100));
    assert_eq!(config.precision_gap, 500_000);
    assert!(!config.enable_immediate_expiration);
}

#[test]
fn test_staleness_config_presets() {
    let high_freq = StalenessConfig::high_frequency();
    assert_eq!(high_freq.heap_max_size, 512);
    assert_eq!(high_freq.precision_gap, 100_000);
    assert!(high_freq.enable_immediate_expiration);

    let batch = StalenessConfig::batch_processing();
    assert_eq!(batch.heap_max_size, 64);
    assert!(!batch.enable_immediate_expiration);
}

#[test]
fn test_constrained_heap_basic_operations() {
    let config = StalenessConfig::default();
    let mut heap = ConstrainedHeap::new(config);

    assert!(heap.is_empty());
    assert_eq!(heap.len(), 0);
    assert!(heap.next_expiration().is_none());

    let result = heap.try_add("key1", msg(1000), ms(100), 0);
    assert!(result.is_ok());

    assert!(!heap.is_empty());
    assert_eq!(heap.len(), 1);
    assert!(heap.next_expiration().is_some());
}

#[test]
fn test_constrained_heap_size_constraint() {
    let config = StalenessConfig {
        heap_max_size: 2,
        heap_time_horizon: ms(1000),
        precision_gap: 1_000, // very small gap to prevent coalescing
        ..StalenessConfig::default()
    };
    let mut heap = ConstrainedHeap::new(config);

    // different timeouts give different expiration times
    assert!(heap.try_add("key1", msg(1000), ms(50), 0).is_ok());
    assert!(heap.try_add("key2", msg(2000), ms(100), 0).is_ok());

    // the third entry exceeds the size cap
    let result = heap.try_add("key3", msg(3000), ms(150), 0);
    assert!(result.is_err());
    assert_eq!(heap.len(), 2);
}

#[test]
fn test_constrained_heap_temporal_constraint() {
    let config = StalenessConfig { heap_time_horizon: ms(50), ..StalenessConfig::default() };
    let mut heap = ConstrainedHeap::new(config);

    // a timeout beyond the temporal horizon is refused
    let result = heap.try_add("key1", msg(1000), ms(200), 0);
    assert!(result.is_err());
}

#[test]
fn test_precision_gap_coalescing() {
    let config = StalenessConfig { precision_gap: ms(10), ..StalenessConfig::default() };
    let mut heap = ConstrainedHeap::new(config);

    heap.try_add("key1", msg(1000), ms(50), 0).unwrap();

    // a slightly different expiration coalesces onto the first entry
    heap.try_add("key2", msg(1000), ms(55), 0).unwrap();

    assert_eq!(heap.len(), 1);
}

#[test]
fn test_heap_drain_expired_in_order() {
    let config = StalenessConfig {
        heap_time_horizon: ms(1000),
        precision_gap: 1,
        ..StalenessConfig::default()
    };
    let mut heap = ConstrainedHeap::new(config);
    heap.try_add(2u64, msg(1), ms(100), 0).unwrap();
    heap.try_add(1u64, msg(2), ms(50), 0).unwrap();
    heap.try_add(3u64, msg(3), ms(150), 0).unwrap();

    // drains everything expired by now, earliest expiration first
    let drained = heap.drain_expired(ms(120));
    let keys: Vec<u64> = drained.iter().map(|p| p.0).collect();
    assert_eq!(keys, vec![1, 2]);
    assert_eq!(heap.len(), 1);
}

#[test]
fn test_detector_drain_expired_and_no_reappearance() {
    let config = StalenessConfig::default();
    let mut detector = StalenessDetector::new(config, 0);

    detector.add_message("key1", msg(1000), ms(10), 0);
    detector.add_message("key2", msg(2000), ms(50), 0);

    let first = detector.drain_expired(ms(20));
    assert_eq!(first.len(), 1);
    assert_eq!(first[0].0, "key1");

    // draining again at the same instant returns nothing: drained
    // messages never reappear
    let second = detector.drain_expired(ms(20));
    assert!(second.is_empty());

    let stats = detector.stats();
    assert_eq!(stats.total_tracked, 1);
}

#[test]
fn test_detector_overflow_to_timer_wheel() {
    let config = StalenessConfig {
        heap_max_size: 1,
        heap_time_horizon: ms(10),
        precision_gap: 1_000,
        ..StalenessConfig::default()
    };
    let mut detector = StalenessDetector::new(config, 0);

    // the first message fits the heap; the second exceeds the horizon and
    // overflows to the wheel
    detector.add_message("key1", msg(1000), ms(5), 0);
    detector.add_message("key2", msg(2000), ms(20), 0);

    let stats = detector.stats();
    assert_eq!(stats.total_tracked, 2);
    assert_eq!(stats.heap_size, 1);
    assert_eq!(stats.timer_wheel_size, 1);

    // both expire by 30 ms, from heap and wheel alike
    let drained = detector.drain_expired(ms(30));
    assert_eq!(drained.len(), 2);
    assert_eq!(detector.stats().total_tracked, 0);
}

#[test]
fn test_detector_clear() {
    let config = StalenessConfig::default();
    let mut detector = StalenessDetector::new(config, 0);

    detector.add_message("key1", msg(1000), ms(100), 0);
    assert_eq!(detector.stats().total_tracked, 1);

    detector.clear();
    assert_eq!(detector.stats().total_tracked, 0);
    assert!(detector.next_expiration().is_none());
}
