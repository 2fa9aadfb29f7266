//! Synchronization configuration.

use vstd::prelude::*;

use crate::staleness::StalenessConfig;

verus! {

/// Policy for handling buffer overflow when pushing new messages.
#[derive(Clone, Copy, Debug, PartialEq, Eq, Structural)]
pub enum DropPolicy {
    /// Reject new messages when the buffer is full (error returned to the
    /// caller).  Preserves existing data; suitable for offline processing.
    RejectNew,
    /// Drop the oldest message to make room for the new one.  Always accepts
    /// new data; suitable for live sensors.
    DropOldest,
}

impl Default for DropPolicy {
    /// New messages are rejected unless configured otherwise.
    fn default() -> (r: Self)
        ensures
            r is RejectNew,
    {
        DropPolicy::RejectNew
    }
}

/// Configuration for a synchronization session.  Durations are nanosecond
/// counts.
#[derive(Clone, Copy)]
pub struct Config {
    /// The time span that a group's timestamps must fit within; `None` means
    /// an infinite window (no time-based dropping).
    pub window_size: Option<u64>,
    /// Seeds the commit cursor: messages at or before this instant are
    /// rejected as late.
    pub start_time: Option<u64>,
    /// The maximum number of messages kept per input stream.
    pub buf_size: usize,
    /// Policy for handling buffer overflow.
    pub drop_policy: DropPolicy,
    /// Staleness detection configuration, if any.
    pub staleness_config: Option<StalenessConfig>,
}

impl Config {
    /// A valid configuration: per-stream capacity of at least two, a
    /// positive window when one is given, and a usable staleness
    /// configuration when one is given.
    pub open spec fn valid(&self) -> bool {
        &&& self.buf_size >= 2
        &&& (self.window_size matches Some(w) ==> w > 0)
        &&& (self.staleness_config matches Some(c) ==> c.wf())
    }

    /// A configuration with staleness detection enabled.
    pub fn with_staleness(
        window_size: Option<u64>,
        start_time: Option<u64>,
        buf_size: usize,
        drop_policy: DropPolicy,
        staleness_config: StalenessConfig,
    ) -> (r: Self)
        ensures
            r == (Config {
                window_size,
                start_time,
                buf_size,
                drop_policy,
                staleness_config: Some(staleness_config),
            }),
    {
        Config { window_size, start_time, buf_size, drop_policy, staleness_config: Some(staleness_config) }
    }

    /// A basic configuration without staleness detection, rejecting new
    /// messages on overflow.
    pub fn basic(window_size: Option<u64>, start_time: Option<u64>, buf_size: usize) -> (r: Self)
        ensures
            r == (Config {
                window_size,
                start_time,
                buf_size,
                drop_policy: DropPolicy::RejectNew,
                staleness_config: None::<StalenessConfig>,
            }),
    {
        Config {
            window_size,
            start_time,
            buf_size,
            drop_policy: DropPolicy::RejectNew,
            staleness_config: None,
        }
    }

    /// Configuration for offline processing: infinite window, overflow
    /// rejected so no data is lost.
    pub fn offline(buf_size: usize) -> (r: Self)
        ensures
            r == (Config {
                window_size: None::<u64>,
                start_time: None::<u64>,
                buf_size,
                drop_policy: DropPolicy::RejectNew,
                staleness_config: None::<StalenessConfig>,
            }),
    {
        Config {
            window_size: None,
            start_time: None,
            buf_size,
            drop_policy: DropPolicy::RejectNew,
            staleness_config: None,
        }
    }

    /// Configuration for realtime processing: finite window, oldest messages
    /// evicted so the latest data is always accepted.
    pub fn realtime(window_size: u64, buf_size: usize) -> (r: Self)
        ensures
            r == (Config {
                window_size: Some(window_size),
                start_time: None::<u64>,
                buf_size,
                drop_policy: DropPolicy::DropOldest,
                staleness_config: None::<StalenessConfig>,
            }),
    {
        Config {
            window_size: Some(window_size),
            start_time: None,
            buf_size,
            drop_policy: DropPolicy::DropOldest,
            staleness_config: None,
        }
    }

    /// Replaces the drop policy.
    pub fn with_drop_policy(self, drop_policy: DropPolicy) -> (r: Self)
        ensures
            r == (Config { drop_policy, ..self }),
    {
        Config { drop_policy, ..self }
    }

    /// Enables staleness detection on an existing configuration.
    pub fn enable_staleness(self, staleness_config: StalenessConfig) -> (r: Self)
        ensures
            r == (Config { staleness_config: Some(staleness_config), ..self }),
    {
        Config { staleness_config: Some(staleness_config), ..self }
    }
}

} // verus!
