//! Multi-stream message synchronization.
//!
//! This library groups messages that are close in time from multiple
//! timestamp-ordered input streams, each identified by a key.  The core is a
//! per-stream ordered buffer, a time-window matching state machine with a
//! monotone commit cursor, a staleness detector (bounded min-heap plus timer
//! wheel), and a driver that turns a sequence of `(key, message)` events into
//! a sequence of synchronized groups.
//!
//! All times are plain nanosecond counts (`u64`); callers that work with
//! wall-clock types convert at the boundary.

pub mod buffer;
pub mod capi;
pub mod config;
pub mod driver;
pub mod message;
pub mod node_config;
pub mod ros2;
pub mod staleness;
pub mod state;
pub mod sync;
pub mod types;
