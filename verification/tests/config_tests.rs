//! Tests for configurations: the core record, the node record with its
//! validation, and the binding surface.

use multi_stream_synchronizer::capi::{ConfluxConfig, ConfluxDropPolicy, ConfluxResult};
use multi_stream_synchronizer::config::{Config, DropPolicy};
use multi_stream_synchronizer::node_config;

fn input(topic: &str, msg_type: &str) -> node_config::InputConfig {
    node_config::InputConfig { topic: topic.to_string(), msg_type: msg_type.to_string() }
}

fn valid_node_config() -> node_config::Config {
    node_config::Config {
        inputs: vec![
            input("/camera/image", "sensor_msgs/msg/Image"),
            input("/lidar/points", "sensor_msgs/msg/PointCloud2"),
        ],
        output: node_config::OutputConfig { suffix: node_config::default_output_suffix() },
        sync: node_config::SyncConfig {
            window_size: 50_000_000,
            buffer_size: 64,
            drop_policy: node_config::DropPolicySetting::RejectNew,
        },
        staleness: Some(node_config::StalenessConfig {
            preset: node_config::StalenessPreset::HighFrequency,
        }),
        qos: node_config::QosConfig::default(),
    }
}

#[test]
fn test_parse_example_config() {
    let config = valid_node_config();
    config.validate().unwrap();

    assert_eq!(config.inputs.len(), 2);
    assert_eq!(config.output.suffix, "_sync");
    assert_eq!(config.sync.window_size, 50_000_000);
    assert_eq!(config.sync.buffer_size, 64);
    assert!(matches!(config.sync.drop_policy, node_config::DropPolicySetting::RejectNew));
}

#[test]
fn test_reject_empty_inputs() {
    let mut config = valid_node_config();
    config.inputs = vec![];
    assert!(config.validate().is_err());
}

#[test]
fn test_reject_duplicate_topics() {
    let mut config = valid_node_config();
    config.inputs = vec![
        input("/camera", "sensor_msgs/msg/Image"),
        input("/camera", "sensor_msgs/msg/Image"),
    ];
    assert!(config.validate().is_err());
}

#[test]
fn test_reject_zero_window_and_buffer() {
    let mut config = valid_node_config();
    config.sync.window_size = 0;
    assert!(config.validate().is_err());

    let mut config = valid_node_config();
    config.sync.buffer_size = 0;
    assert!(config.validate().is_err());
}

#[test]
fn test_reject_empty_input_fields() {
    let mut config = valid_node_config();
    config.inputs = vec![input("", "sensor_msgs/msg/Image")];
    assert!(config.validate().is_err());

    let mut config = valid_node_config();
    config.inputs = vec![input("/camera", "")];
    assert!(config.validate().is_err());
}

#[test]
fn test_to_sync_config() {
    let config = valid_node_config();
    let core = config.to_sync_config();
    assert_eq!(core.window_size, Some(50_000_000));
    assert_eq!(core.start_time, None);
    assert_eq!(core.buf_size, 64);
    assert!(matches!(core.drop_policy, DropPolicy::RejectNew));
    assert_eq!(core.staleness_config.unwrap().heap_max_size, 512);
}

#[test]
fn test_core_config_constructors() {
    let offline = Config::offline(8);
    assert_eq!(offline.window_size, None);
    assert!(matches!(offline.drop_policy, DropPolicy::RejectNew));

    let realtime = Config::realtime(50_000_000, 8);
    assert_eq!(realtime.window_size, Some(50_000_000));
    assert!(matches!(realtime.drop_policy, DropPolicy::DropOldest));

    let with_policy = Config::offline(8).with_drop_policy(DropPolicy::DropOldest);
    assert!(matches!(with_policy.drop_policy, DropPolicy::DropOldest));
}

#[test]
fn test_conflux_result_codes() {
    assert_eq!(ConfluxResult::Success.code(), 0);
    assert_eq!(ConfluxResult::InvalidArgument.code(), 1);
    assert_eq!(ConfluxResult::BufferFull.code(), 2);
    assert_eq!(ConfluxResult::KeyNotFound.code(), 3);
    assert_eq!(ConfluxResult::NullPointer.code(), 4);
    assert_eq!(ConfluxResult::InternalError.code(), 5);
}

#[test]
fn test_conflux_config_default() {
    let config = ConfluxConfig::default();
    assert_eq!(config.window_size_ms, 50);
    assert_eq!(config.buffer_size, 64);
    assert!(matches!(config.drop_policy, ConfluxDropPolicy::RejectNew));

    // zero milliseconds means the infinite window
    let infinite = ConfluxConfig { window_size_ms: 0, ..ConfluxConfig::default() };
    assert_eq!(infinite.window_ns(), None);
    assert_eq!(config.window_ns(), Some(50_000_000));
}
