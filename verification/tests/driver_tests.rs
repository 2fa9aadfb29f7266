//! Tests for the event-loop decision machine.

use multi_stream_synchronizer::config::Config;
use multi_stream_synchronizer::driver::{Driver, DriverStep};
use multi_stream_synchronizer::message::PlainMessage;

fn ms(v: u64) -> u64 {
    v * 1_000_000
}

fn msg(timestamp_ms: u64) -> PlainMessage {
    PlainMessage::new(ms(timestamp_ms), None, vec![])
}

/// Runs the driver over a scripted input, returning the emitted groups'
/// timestamps in milliseconds.
fn run_driver(window_ms: u64, events: Vec<(&str, u64)>) -> Vec<Vec<(String, u64)>> {
    let config = Config::basic(Some(ms(window_ms)), None, 16);
    let mut driver: Driver<String, PlainMessage> =
        Driver::new(vec!["A".to_string(), "B".to_string()], config, 0).ok().unwrap();
    let mut input = events.into_iter();
    let mut groups = Vec::new();
    loop {
        match driver.step() {
            DriverStep::NeedInput => match input.next() {
                Some((key, ts)) => {
                    // the driver's policy: rejected messages are dropped
                    let _ = driver.feed(key.to_string(), msg(ts), 0);
                },
                None => driver.end_of_input(),
            },
            DriverStep::Emit(group) => {
                groups.push(
                    group.iter().map(|(k, m)| (k.clone(), m.timestamp / 1_000_000)).collect(),
                );
            },
            DriverStep::Finished => break,
        }
    }
    groups
}

#[test]
fn test_driver_perfect_alignment() {
    let groups = run_driver(
        50,
        vec![("A", 1000), ("B", 1000), ("A", 2000), ("B", 2000), ("A", 3000), ("B", 3000)],
    );
    assert_eq!(
        groups,
        vec![
            vec![("A".to_string(), 1000), ("B".to_string(), 1000)],
            vec![("A".to_string(), 2000), ("B".to_string(), 2000)],
            vec![("A".to_string(), 3000), ("B".to_string(), 3000)],
        ]
    );
}

#[test]
fn test_driver_no_groups_when_separated() {
    let groups = run_driver(50, vec![("A", 1000), ("B", 1200), ("A", 2000), ("B", 2200)]);
    assert_eq!(groups.len(), 0);
}

#[test]
fn test_driver_emission_minima_non_decreasing() {
    let groups = run_driver(
        50,
        vec![
            ("A", 1000),
            ("B", 1010),
            ("A", 2000),
            ("B", 1990),
            ("A", 3000),
            ("B", 3020),
            ("A", 4000),
            ("B", 4000),
        ],
    );
    let minima: Vec<u64> =
        groups.iter().map(|g| g.iter().map(|(_, t)| *t).min().unwrap()).collect();
    let mut sorted = minima.clone();
    sorted.sort();
    assert_eq!(minima, sorted);
    assert_eq!(minima.len(), 4);
}
