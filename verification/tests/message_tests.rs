//! Tests for ROS time conversion, message wrappers, and type-name
//! normalization.

use multi_stream_synchronizer::message::{
    duration_to_ros_time, is_supported_msg_type, normalize_msg_type, ros_time_to_duration,
    str_eq, HeaderMessage, SynchronizedGroup, Timestamped, TimestampedMessage,
};

#[test]
fn message_test_ros_time_conversion() {
    // normal case
    let duration = ros_time_to_duration(1000, 500_000_000);
    assert_eq!(duration, 1000 * 1_000_000_000 + 500_000_000);

    // zero
    let duration = ros_time_to_duration(0, 0);
    assert_eq!(duration, 0);

    // negative floors to zero
    let duration = ros_time_to_duration(-1, 0);
    assert_eq!(duration, 0);
}

#[test]
fn message_test_duration_to_ros_time() {
    let (sec, nanosec) = duration_to_ros_time(1000 * 1_000_000_000 + 500_000_000);
    assert_eq!(sec, 1000);
    assert_eq!(nanosec, 500_000_000);
}

#[test]
fn message_test_timestamped_message() {
    let msg = TimestampedMessage::from_ros_time(
        "/camera".to_string(),
        1000,
        500_000_000,
        vec![1, 2, 3],
    );

    assert_eq!(msg.topic, "/camera");
    assert_eq!(msg.timestamp, 1000 * 1_000_000_000 + 500_000_000);
    assert_eq!(msg.ros_stamp, (1000, 500_000_000));
}

#[test]
fn subscriber_test_normalize_msg_type() {
    assert_eq!(normalize_msg_type("sensor_msgs/msg/Image"), "sensor_msgs/msg/Image");
    assert_eq!(normalize_msg_type("sensor_msgs/Image"), "sensor_msgs/msg/Image");
    assert_eq!(normalize_msg_type("nav_msgs/msg/Odometry"), "nav_msgs/msg/Odometry");
    assert_eq!(normalize_msg_type("custom_msgs/CustomType"), "custom_msgs/msg/CustomType");
}

#[test]
fn test_normalize_msg_type_no_separator() {
    assert_eq!(normalize_msg_type("Image"), "Image");
    assert_eq!(normalize_msg_type(""), "");
}

#[test]
fn test_timestamped_from_header() {
    let msg = HeaderMessage::new((1000, 500_000_000), "base_link".to_string());
    assert_eq!(msg.timestamp(), 1000 * 1_000_000_000 + 500_000_000);
}

#[test]
fn test_negative_timestamp() {
    let msg = HeaderMessage::new((-1, 0), "base_link".to_string());
    assert_eq!(msg.timestamp(), 0);
}

#[test]
fn test_str_eq() {
    assert!(str_eq("", ""));
    assert!(str_eq("abc", "abc"));
    assert!(!str_eq("abc", "abd"));
    assert!(!str_eq("abc", "abcd"));
}

#[test]
fn test_synchronized_group() {
    let messages = vec![
        (
            "/camera".to_string(),
            TimestampedMessage::from_ros_time("/camera".to_string(), 1000, 0, vec![]),
        ),
        (
            "/lidar".to_string(),
            TimestampedMessage::from_ros_time("/lidar".to_string(), 1000, 100_000, vec![]),
        ),
    ];

    let group = SynchronizedGroup::new(1000 * 1_000_000_000, messages);

    assert_eq!(group.len(), 2);
    assert!(!group.is_empty());
    assert!(group.get("/camera").is_some());
    assert!(group.get("/lidar").is_some());
    assert!(group.get("/imu").is_none());
}

#[test]
fn test_is_supported_msg_type() {
    assert!(is_supported_msg_type("sensor_msgs/msg/Image"));
    assert!(is_supported_msg_type("sensor_msgs/Image"));
    assert!(is_supported_msg_type("sensor_msgs/msg/Joy"));
    assert!(!is_supported_msg_type("nav_msgs/msg/Odometry"));
    assert!(!is_supported_msg_type("Image"));
}

#[test]
fn test_ros_time_conversion() {
    // normal case
    let duration = ros_time_to_duration(1000, 500_000_000);
    assert_eq!(duration, 1000 * 1_000_000_000 + 500_000_000);

    // zero
    let duration = ros_time_to_duration(0, 0);
    assert_eq!(duration, 0);

    // negative floors to zero
    let duration = ros_time_to_duration(-1, 0);
    assert_eq!(duration, 0);
}

#[test]
fn test_duration_to_ros_time() {
    let (sec, nanosec) = duration_to_ros_time(1000 * 1_000_000_000 + 500_000_000);
    assert_eq!(sec, 1000);
    assert_eq!(nanosec, 500_000_000);
}

#[test]
fn test_timestamped_message() {
    let msg = TimestampedMessage::from_ros_time(
        "/camera".to_string(),
        1000,
        500_000_000,
        vec![1, 2, 3],
    );

    assert_eq!(msg.topic, "/camera");
    assert_eq!(msg.timestamp, 1000 * 1_000_000_000 + 500_000_000);
    assert_eq!(msg.ros_stamp, (1000, 500_000_000));
}

#[test]
fn test_normalize_msg_type() {
    assert_eq!(normalize_msg_type("sensor_msgs/msg/Image"), "sensor_msgs/msg/Image");
    assert_eq!(normalize_msg_type("sensor_msgs/Image"), "sensor_msgs/msg/Image");
    assert_eq!(normalize_msg_type("nav_msgs/msg/Odometry"), "nav_msgs/msg/Odometry");
    assert_eq!(normalize_msg_type("custom_msgs/CustomType"), "custom_msgs/msg/CustomType");
}
