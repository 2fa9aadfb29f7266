//! Scenario tests for the synchronizer and the matching state: aligned
//! streams, near misses, out-of-range separation, overflow policies, the
//! infinite window, three streams, and staleness expiration.

use multi_stream_synchronizer::config::{Config, DropPolicy};
use multi_stream_synchronizer::driver::Driver;
use multi_stream_synchronizer::message::PlainMessage;
use multi_stream_synchronizer::staleness::StalenessConfig;
use multi_stream_synchronizer::state::{BlockingPushStep, PushError, State};
use multi_stream_synchronizer::sync::Synchronizer;

fn ms(v: u64) -> u64 {
    v * 1_000_000
}

fn msg(timestamp_ms: u64) -> PlainMessage {
    PlainMessage::new(ms(timestamp_ms), None, vec![])
}

fn two_stream_sync(window_ms: u64, buf_size: usize) -> Synchronizer<String, PlainMessage> {
    let config = Config::basic(Some(ms(window_ms)), None, buf_size);
    Synchronizer::new(vec!["A".to_string(), "B".to_string()], config, 0).ok().unwrap()
}

fn group_ts_ms(group: &[(String, PlainMessage)]) -> Vec<(String, u64)> {
    group.iter().map(|(k, m)| (k.clone(), m.timestamp / 1_000_000)).collect()
}

#[test]
fn test_perfect_alignment_two_streams() {
    // stream A: 1000, 2000, 3000 ms; stream B: the same; window 50 ms
    let mut sync = two_stream_sync(50, 16);
    for ts in [1000u64, 2000, 3000] {
        sync.push("A".to_string(), msg(ts), 0).unwrap();
        sync.push("B".to_string(), msg(ts), 0).unwrap();
    }
    let groups = sync.drain();
    let minima: Vec<Vec<(String, u64)>> = groups.iter().map(|g| group_ts_ms(g)).collect();
    assert_eq!(
        minima,
        vec![
            vec![("A".to_string(), 1000), ("B".to_string(), 1000)],
            vec![("A".to_string(), 2000), ("B".to_string(), 2000)],
            vec![("A".to_string(), 3000), ("B".to_string(), 3000)],
        ]
    );
}

#[test]
fn test_near_miss_within_window() {
    // A: 1000, 2000, 3000; B: 1010, 1990, 3020; window 50 ms
    let mut sync = two_stream_sync(50, 16);
    for ts in [1000u64, 2000, 3000] {
        sync.push("A".to_string(), msg(ts), 0).unwrap();
    }
    for ts in [1010u64, 1990, 3020] {
        sync.push("B".to_string(), msg(ts), 0).unwrap();
    }
    let groups = sync.drain();
    let pairs: Vec<Vec<(String, u64)>> = groups.iter().map(|g| group_ts_ms(g)).collect();
    assert_eq!(
        pairs,
        vec![
            vec![("A".to_string(), 1000), ("B".to_string(), 1010)],
            vec![("A".to_string(), 2000), ("B".to_string(), 1990)],
            vec![("A".to_string(), 3000), ("B".to_string(), 3020)],
        ]
    );
}

#[test]
fn test_out_of_range_separation() {
    // A: 1000, 2000; B: 1200, 2200; window 50 ms: no group can form
    let mut sync = two_stream_sync(50, 16);
    for ts in [1000u64, 2000] {
        sync.push("A".to_string(), msg(ts), 0).unwrap();
    }
    for ts in [1200u64, 2200] {
        sync.push("B".to_string(), msg(ts), 0).unwrap();
    }
    let groups = sync.drain();
    assert_eq!(groups.len(), 0);
}

#[test]
fn test_reject_new_overflow() {
    // buf_size 2, RejectNew: the third push fails and the buffer keeps
    // its first two messages
    let mut state: State<String, PlainMessage> = State::new(
        vec!["A".to_string()],
        2,
        Some(ms(50)),
        DropPolicy::RejectNew,
        None,
        None,
    );
    state.push("A".to_string(), msg(1500), 0).unwrap();
    state.push("A".to_string(), msg(1600), 0).unwrap();
    let result = state.push("A".to_string(), msg(1700), 0);
    match result {
        Err(PushError::BufferFull(m)) => assert_eq!(m.timestamp, ms(1700)),
        _ => panic!("expected BufferFull"),
    }
    assert_eq!(state.buffer_len(&"A".to_string()), 2);
    assert_eq!(state.min_timestamp().unwrap().1, ms(1500));
    assert_eq!(state.sup_timestamp().unwrap().1, ms(1600));
}

#[test]
fn test_drop_oldest_overflow() {
    // buf_size 2, DropOldest: the third push evicts the oldest
    let mut state: State<String, PlainMessage> = State::new(
        vec!["A".to_string()],
        2,
        Some(ms(50)),
        DropPolicy::DropOldest,
        None,
        None,
    );
    state.push("A".to_string(), msg(1500), 0).unwrap();
    state.push("A".to_string(), msg(1600), 0).unwrap();
    state.push("A".to_string(), msg(1700), 0).unwrap();
    assert_eq!(state.buffer_len(&"A".to_string()), 2);
    assert_eq!(state.min_timestamp().unwrap().1, ms(1600));
    assert_eq!(state.sup_timestamp().unwrap().1, ms(1700));
}

#[test]
fn test_infinite_window_matches_any_spread() {
    // A: 1500, 100000; B: 50000, 150000; infinite window
    let config = Config::basic(None, None, 16);
    let mut sync: Synchronizer<String, PlainMessage> =
        Synchronizer::new(vec!["A".to_string(), "B".to_string()], config, 0).ok().unwrap();
    sync.push("A".to_string(), msg(1500), 0).unwrap();
    sync.push("A".to_string(), msg(100_000), 0).unwrap();
    sync.push("B".to_string(), msg(50_000), 0).unwrap();
    sync.push("B".to_string(), msg(150_000), 0).unwrap();

    let first = sync.poll().unwrap();
    assert_eq!(
        group_ts_ms(&first),
        vec![("A".to_string(), 1500), ("B".to_string(), 50_000)]
    );
    // draining the remainder pairs the leftovers
    let second = sync.poll().unwrap();
    assert_eq!(
        group_ts_ms(&second),
        vec![("A".to_string(), 100_000), ("B".to_string(), 150_000)]
    );
    assert!(sync.poll().is_none());
}

#[test]
fn test_three_stream_alignment() {
    // A, B, C each: 1000, 2000 ms; window 10 ms
    let config = Config::basic(Some(ms(10)), None, 16);
    let mut sync: Synchronizer<String, PlainMessage> = Synchronizer::new(
        vec!["A".to_string(), "B".to_string(), "C".to_string()],
        config,
        0,
    )
    .ok()
    .unwrap();
    for key in ["A", "B", "C"] {
        for ts in [1000u64, 2000] {
            sync.push(key.to_string(), msg(ts), 0).unwrap();
        }
    }
    let groups = sync.drain();
    assert_eq!(groups.len(), 2);
    assert_eq!(
        group_ts_ms(&groups[0]),
        vec![("A".to_string(), 1000), ("B".to_string(), 1000), ("C".to_string(), 1000)]
    );
    assert_eq!(
        group_ts_ms(&groups[1]),
        vec![("A".to_string(), 2000), ("B".to_string(), 2000), ("C".to_string(), 2000)]
    );
}

#[test]
fn test_commit_cursor_rejects_late_messages() {
    // after a group is emitted, messages at or before its minimum are late
    let mut sync = two_stream_sync(50, 16);
    for ts in [1000u64, 2000] {
        sync.push("A".to_string(), msg(ts), 0).unwrap();
        sync.push("B".to_string(), msg(ts), 0).unwrap();
    }
    let g = sync.poll().unwrap();
    assert_eq!(g[0].1.timestamp, ms(1000));
    assert_eq!(sync.commit_timestamp(), Some(ms(1000)));

    let result = sync.push("A".to_string(), msg(900), 0);
    match result {
        Err(PushError::LateMessage(m)) => assert_eq!(m.timestamp, ms(900)),
        _ => panic!("expected LateMessage"),
    }
    let result = sync.push("A".to_string(), msg(1000), 0);
    assert!(matches!(result, Err(PushError::LateMessage(_))));
}

#[test]
fn test_unknown_key_rejected() {
    let mut sync = two_stream_sync(50, 16);
    let result = sync.push("C".to_string(), msg(1500), 0);
    assert!(matches!(result, Err(PushError::UnknownKey(_))));
}

#[test]
fn test_out_of_order_rejected() {
    let mut sync = two_stream_sync(50, 16);
    sync.push("A".to_string(), msg(1500), 0).unwrap();
    let result = sync.push("A".to_string(), msg(1400), 0);
    assert!(matches!(result, Err(PushError::OutOfOrder(_))));
    let result = sync.push("A".to_string(), msg(1500), 0);
    assert!(matches!(result, Err(PushError::OutOfOrder(_))));
}

#[test]
fn test_start_time_seeds_commit() {
    let config = Config::basic(Some(ms(100)), Some(ms(1000)), 4);
    let mut sync: Synchronizer<String, PlainMessage> =
        Synchronizer::new(vec!["A".to_string()], config, 0).ok().unwrap();
    assert!(matches!(
        sync.push("A".to_string(), msg(500), 0),
        Err(PushError::LateMessage(_))
    ));
    assert!(sync.push("A".to_string(), msg(1500), 0).is_ok());
}

#[test]
fn test_invalid_configurations_rejected() {
    let ok = Config::basic(Some(ms(100)), None, 4);
    assert!(Synchronizer::<String, PlainMessage>::new(vec![], ok, 0).is_err());

    let too_small = Config::basic(Some(ms(100)), None, 1);
    assert!(
        Synchronizer::<String, PlainMessage>::new(vec!["A".to_string()], too_small, 0).is_err()
    );

    let zero_window = Config::basic(Some(0), None, 4);
    assert!(
        Synchronizer::<String, PlainMessage>::new(vec!["A".to_string()], zero_window, 0)
            .is_err()
    );

    let minimal = Config::basic(Some(1), None, 2);
    assert!(Synchronizer::<String, PlainMessage>::new(vec!["A".to_string()], minimal, 0).is_ok());
}

#[test]
fn test_staleness_expiration_prunes_first_message() {
    // push A at 1000 ms, let 200 ms of real time pass with a 100 ms
    // horizon: the first message expires and no group contains it; a
    // fresh aligned pair then forms a group
    let staleness = StalenessConfig::high_frequency();
    let config = Config::with_staleness(Some(ms(100)), None, 16, DropPolicy::RejectNew, staleness);
    let mut state: State<String, PlainMessage> = State::new(
        vec!["A".to_string(), "B".to_string()],
        16,
        Some(ms(100)),
        DropPolicy::RejectNew,
        None,
        Some(multi_stream_synchronizer::staleness::StalenessDetector::new(
            config.staleness_config.unwrap(),
            0,
        )),
    );
    state.push("A".to_string(), msg(1000), 0).unwrap();

    // 200 ms later the detector reports it expired and it leaves the buffer
    let removed = state.process_staleness_expiration(ms(200));
    assert_eq!(removed, 1);
    assert_eq!(state.buffer_len(&"A".to_string()), 0);

    state.push("A".to_string(), msg(1250), ms(200)).unwrap();
    state.push("B".to_string(), msg(1255), ms(200)).unwrap();
    let group = state.try_match().unwrap();
    let ts: Vec<u64> = group.iter().map(|(_, m)| m.timestamp / 1_000_000).collect();
    assert_eq!(ts, vec![1250, 1255]);
}

#[test]
fn test_drop_expired_messages_via_state() {
    let mut state: State<String, PlainMessage> = State::new(
        vec!["A".to_string()],
        4,
        Some(ms(100)),
        DropPolicy::RejectNew,
        None,
        None,
    );
    state
        .push("A".to_string(), PlainMessage::new(ms(1500), Some(ms(500)), vec![]), 0)
        .unwrap();
    state
        .push("A".to_string(), PlainMessage::new(ms(1700), Some(ms(2000)), vec![]), 0)
        .unwrap();

    let dropped = state.drop_expired_messages(ms(2500));
    assert_eq!(dropped, 1);
    assert_eq!(state.buffer_len(&"A".to_string()), 1);
}

#[test]
fn test_drop_min_pops_all_minimum_fronts() {
    let mut state: State<String, PlainMessage> = State::new(
        vec!["A".to_string(), "B".to_string()],
        4,
        Some(ms(100)),
        DropPolicy::RejectNew,
        None,
        None,
    );
    state.push("A".to_string(), msg(1500), 0).unwrap();
    state.push("A".to_string(), msg(2000), 0).unwrap();
    state.push("B".to_string(), msg(1100), 0).unwrap();
    state.push("B".to_string(), msg(2500), 0).unwrap();

    assert!(state.drop_min());
    assert_eq!(state.min_timestamp().unwrap().1, ms(1500));
}

#[test]
fn test_feedback_snapshot() {
    let mut sync = two_stream_sync(50, 2);
    sync.push("A".to_string(), msg(1000), 0).unwrap();
    sync.push("A".to_string(), msg(1100), 0).unwrap();
    sync.push("B".to_string(), msg(1000), 0).unwrap();

    let fb = sync.feedback();
    assert_eq!(fb.commit_timestamp, None);
    assert_eq!(fb.accepted_max_timestamp, None);
    // only B still has room
    assert_eq!(fb.accepted_keys, vec!["B".to_string()]);
}

#[test]
fn test_duplicate_keys_collapse() {
    let config = Config::basic(Some(ms(50)), None, 4);
    let sync: Synchronizer<String, PlainMessage> = Synchronizer::new(
        vec!["A".to_string(), "B".to_string(), "A".to_string()],
        config,
        0,
    )
    .ok()
    .unwrap();
    assert_eq!(sync.key_count(), 2);
}

#[test]
fn test_push_blocking_step() {
    let mut state: State<String, PlainMessage> = State::new(
        vec!["A".to_string()],
        2,
        Some(ms(50)),
        DropPolicy::RejectNew,
        None,
        None,
    );

    // room available: the push succeeds at once
    match state.push_blocking_step("A".to_string(), msg(1500), 0, false) {
        BlockingPushStep::Done => {}
        _ => panic!("expected Done"),
    }

    // a message that does not advance the watermark fails immediately
    match state.push_blocking_step("A".to_string(), msg(1400), 0, false) {
        BlockingPushStep::Fail(PushError::OutOfOrder(m)) => assert_eq!(m.timestamp, ms(1400)),
        _ => panic!("expected OutOfOrder"),
    }

    match state.push_blocking_step("A".to_string(), msg(1600), 0, false) {
        BlockingPushStep::Done => {}
        _ => panic!("expected Done"),
    }

    // full buffer, deadline still running: wait and retry later
    match state.push_blocking_step("A".to_string(), msg(1700), 0, false) {
        BlockingPushStep::Wait(m) => assert_eq!(m.timestamp, ms(1700)),
        _ => panic!("expected Wait"),
    }
    assert_eq!(state.buffer_len(&"A".to_string()), 2);

    // full buffer, deadline elapsed: the message times out
    match state.push_blocking_step("A".to_string(), msg(1700), 0, true) {
        BlockingPushStep::Fail(PushError::Timeout(m)) => assert_eq!(m.timestamp, ms(1700)),
        _ => panic!("expected Timeout"),
    }

    // an unknown key fails immediately, deadline or not
    match state.push_blocking_step("B".to_string(), msg(1800), 0, false) {
        BlockingPushStep::Fail(PushError::UnknownKey(_)) => {}
        _ => panic!("expected UnknownKey"),
    }

    // under DropOldest a full buffer never waits: the oldest is evicted
    let mut state: State<String, PlainMessage> = State::new(
        vec!["A".to_string()],
        2,
        Some(ms(50)),
        DropPolicy::DropOldest,
        None,
        None,
    );
    state.push("A".to_string(), msg(1500), 0).unwrap();
    state.push("A".to_string(), msg(1600), 0).unwrap();
    match state.push_blocking_step("A".to_string(), msg(1700), 0, false) {
        BlockingPushStep::Done => {}
        _ => panic!("expected Done under DropOldest"),
    }
    assert_eq!(state.min_timestamp().unwrap().1, ms(1600));
}

#[test]
fn test_prune_drops_expired_and_stale() {
    // a prune pass removes per-message-timeout expirations (against the
    // commit cursor) and detector-reported stale fronts
    let config = Config::with_staleness(
        Some(ms(100)),
        Some(ms(1000)),
        16,
        DropPolicy::RejectNew,
        multi_stream_synchronizer::staleness::StalenessConfig::high_frequency(),
    );
    let mut driver: Driver<String, PlainMessage> =
        Driver::new(vec!["A".to_string()], config, 0).ok().unwrap();

    // a message with its own 500 ms dwell timeout, registered at time zero
    driver
        .feed("A".to_string(), PlainMessage::new(ms(1200), Some(ms(500)), vec![]), 0)
        .unwrap();

    // 200 ms later the staleness horizon (50 ms) has passed: the front is
    // drained out of the buffer
    driver.prune(ms(200));
    let fb = driver.feedback();
    assert_eq!(fb.accepted_keys, vec!["A".to_string()]);
}

#[test]
fn test_pruned_instant_never_grouped_later() {
    // once a message expires and is pruned, no later push or match brings
    // its instant back: every subsequent group draws strictly newer
    // messages from that stream
    let mut state: State<String, PlainMessage> = State::new(
        vec!["A".to_string(), "B".to_string()],
        4,
        Some(ms(100)),
        DropPolicy::RejectNew,
        None,
        None,
    );
    state
        .push("A".to_string(), PlainMessage::new(ms(1000), Some(ms(100)), vec![]), 0)
        .unwrap();
    let dropped = state.drop_expired_messages(ms(1200));
    assert_eq!(dropped, 1);

    // the stream admits only newer messages and later groups skip the
    // pruned instant entirely
    assert!(matches!(
        state.push("A".to_string(), msg(1000), ms(1200)),
        Err(PushError::OutOfOrder(_))
    ));
    state.push("A".to_string(), msg(1300), ms(1200)).unwrap();
    state.push("B".to_string(), msg(1320), ms(1200)).unwrap();
    let group = state.try_match().unwrap();
    for (_, m) in &group {
        assert!(m.timestamp > ms(1000));
    }
}
