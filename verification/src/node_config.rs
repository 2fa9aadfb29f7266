//! Host-node configuration: the validated shape of the YAML file a
//! synchronization node is started with.  Parsing is the host's business;
//! validation and the translation to a core configuration are done here.

use vstd::prelude::*;

use crate::config::{Config as CoreConfig, DropPolicy};
use crate::message::str_eq;
use crate::staleness::StalenessConfig as CoreStalenessConfig;

verus! {

/// Configuration for one input topic.
#[derive(Debug)]
pub struct InputConfig {
    /// The topic name.
    pub topic: String,
    /// The message type (e.g. a package-qualified sensor type).
    pub msg_type: String,
}

/// Configuration for output topics.
#[derive(Debug)]
pub struct OutputConfig {
    /// Suffix appended to each input topic for its synchronized output.
    pub suffix: String,
}

/// The default output suffix.
pub fn default_output_suffix() -> (r: String)
    ensures
        r@ == "_sync"@,
{
    let mut s = String::new();
    s.append("_sync");
    s
}

/// Drop policy configuration setting.
#[derive(Clone, Copy, Debug, PartialEq, Eq, Structural)]
pub enum DropPolicySetting {
    /// Reject new messages when the buffer is full.
    RejectNew,
    /// Drop the oldest message to make room for the new one.
    DropOldest,
}

impl Default for DropPolicySetting {
    /// New messages are rejected unless configured otherwise.
    fn default() -> (r: Self)
        ensures
            r is RejectNew,
    {
        DropPolicySetting::RejectNew
    }
}

/// Synchronization parameters.
#[derive(Debug)]
pub struct SyncConfig {
    /// Time window for grouping messages, in nanoseconds.
    pub window_size: u64,
    /// Maximum messages to buffer per input stream.
    pub buffer_size: usize,
    /// Policy for handling buffer overflow.
    pub drop_policy: DropPolicySetting,
}

/// Staleness detection configuration: a preset choice.
#[derive(Debug)]
pub struct StalenessConfig {
    /// The chosen preset.
    pub preset: StalenessPreset,
}

/// Staleness preset options.
#[derive(Clone, Copy, Debug, PartialEq, Eq, Structural)]
pub enum StalenessPreset {
    /// High-frequency streaming (sub-millisecond precision, real-time).
    HighFrequency,
    /// Low-frequency streaming (millisecond precision, near real-time).
    LowFrequency,
    /// Batch processing (relaxed precision, lazy checking).
    Batch,
}

impl Default for StalenessPreset {
    /// High-frequency streaming unless configured otherwise.
    fn default() -> (r: Self)
        ensures
            r is HighFrequency,
    {
        StalenessPreset::HighFrequency
    }
}

/// Quality-of-service reliability setting.
#[derive(Clone, Copy, Debug, PartialEq, Eq, Structural)]
pub enum Reliability {
    /// Deliver on a best-effort basis.
    BestEffort,
    /// Deliver reliably.
    Reliable,
}

/// The default reliability.
pub fn default_reliability() -> (r: Reliability)
    ensures
        r is BestEffort,
{
    Reliability::BestEffort
}

/// The default history depth.
pub fn default_history_depth() -> (r: usize)
    ensures
        r == 1,
{
    1
}

/// Quality-of-service configuration.
#[derive(Debug)]
pub struct QosConfig {
    /// Reliability setting.
    pub reliability: Reliability,
    /// History depth.
    pub history_depth: usize,
}

impl Default for QosConfig {
    /// Best-effort delivery with a history depth of one.
    fn default() -> (r: Self)
        ensures
            r.reliability is BestEffort,
            r.history_depth == 1,
    {
        QosConfig { reliability: default_reliability(), history_depth: default_history_depth() }
    }
}

/// Why a node configuration was rejected.
#[derive(Debug)]
pub enum ConfigError {
    /// No input topic was given.
    NoInputs,
    /// The output suffix is empty.
    EmptySuffix,
    /// The window size is zero.
    ZeroWindow,
    /// The per-stream buffer size is zero.
    ZeroBufferSize,
    /// Some input has an empty topic or type name.
    EmptyInputField,
    /// Two inputs name the same topic.
    DuplicateTopic,
}

/// The root node configuration.
#[derive(Debug)]
pub struct Config {
    /// Input topics to synchronize.
    pub inputs: Vec<InputConfig>,
    /// Output topic configuration.
    pub output: OutputConfig,
    /// Synchronization parameters.
    pub sync: SyncConfig,
    /// Optional staleness detection configuration.
    pub staleness: Option<StalenessConfig>,
    /// Quality-of-service configuration.
    pub qos: QosConfig,
}

impl Config {
    /// A valid configuration: at least one input with non-empty names, a
    /// non-empty output suffix, a positive window, a positive buffer size,
    /// and no duplicate topic.
    pub open spec fn valid(&self) -> bool {
        &&& self.inputs@.len() > 0
        &&& self.output.suffix@.len() > 0
        &&& self.sync.window_size > 0
        &&& self.sync.buffer_size > 0
        &&& (forall|i: int|
            0 <= i < self.inputs@.len() ==> #[trigger] self.inputs@[i].topic@.len() > 0
                && self.inputs@[i].msg_type@.len() > 0)
        &&& (forall|i: int, j: int|
            0 <= i < j < self.inputs@.len() ==> self.inputs@[i].topic@
                != self.inputs@[j].topic@)
    }

    /// Validates the configuration, reporting the first violation in the
    /// order the fields are declared.
    pub fn validate(&self) -> (r: Result<(), ConfigError>)
        ensures
            r is Ok <==> self.valid(),
            match r {
                Ok(()) => self.valid(),
                Err(e) => match e {
                    ConfigError::NoInputs => self.inputs@.len() == 0,
                    ConfigError::EmptySuffix => self.output.suffix@.len() == 0,
                    ConfigError::ZeroWindow => self.sync.window_size == 0,
                    ConfigError::ZeroBufferSize => self.sync.buffer_size == 0,
                    ConfigError::EmptyInputField => exists|i: int|
                        0 <= i < self.inputs@.len() && (#[trigger] self.inputs@[i].topic@.len()
                            == 0 || self.inputs@[i].msg_type@.len() == 0),
                    ConfigError::DuplicateTopic => exists|i: int, j: int|
                        0 <= i < j < self.inputs@.len() && #[trigger] self.inputs@[i].topic@
                            == #[trigger] self.inputs@[j].topic@,
                },
            },
    {
        if self.inputs.len() == 0 {
            return Err(ConfigError::NoInputs);
        }
        if self.output.suffix.as_str().is_empty() {
            proof {
                assert(self.output.suffix@.len() == 0);
            }
            return Err(ConfigError::EmptySuffix);
        }
        if self.sync.window_size == 0 {
            return Err(ConfigError::ZeroWindow);
        }
        if self.sync.buffer_size == 0 {
            return Err(ConfigError::ZeroBufferSize);
        }
        let n = self.inputs.len();
        let mut i: usize = 0;
        while i < n
            invariant
                n == self.inputs@.len(),
                i <= n,
                forall|k: int|
                    0 <= k < i ==> #[trigger] self.inputs@[k].topic@.len() > 0
                        && self.inputs@[k].msg_type@.len() > 0,
            decreases n - i,
        {
            if self.inputs[i].topic.as_str().is_empty() || self.inputs[
                i
            ].msg_type.as_str().is_empty() {
                proof {
                    assert(self.inputs@[i as int].topic@.len() == 0 || self.inputs@[
                        i as int
                    ].msg_type@.len() == 0);
                }
                return Err(ConfigError::EmptyInputField);
            }
            i = i + 1;
        }
        let mut i: usize = 0;
        while i < n
            invariant
                n == self.inputs@.len(),
                i <= n,
                forall|a: int, b: int|
                    0 <= a < b < self.inputs@.len() && a < i ==> self.inputs@[a].topic@
                        != self.inputs@[b].topic@,
            decreases n - i,
        {
            let mut j: usize = i + 1;
            while j < n
                invariant
                    n == self.inputs@.len(),
                    i < j || j == i + 1,
                    i < n,
                    j <= n,
                    forall|a: int, b: int|
                        0 <= a < b < self.inputs@.len() && a < i ==> self.inputs@[a].topic@
                            != self.inputs@[b].topic@,
                    forall|b: int|
                        i < b < j ==> self.inputs@[i as int].topic@ != #[trigger] self.inputs@[
                            b
                        ].topic@,
                decreases n - j,
            {
                if str_eq(self.inputs[i].topic.as_str(), self.inputs[j].topic.as_str()) {
                    proof {
                        assert(self.inputs@[i as int].topic@ == self.inputs@[j as int].topic@);
                    }
                    return Err(ConfigError::DuplicateTopic);
                }
                j = j + 1;
            }
            i = i + 1;
        }
        Ok(())
    }

    /// Translates to a core configuration: the window and buffer size carry
    /// over, the drop policy and staleness preset map to their core
    /// counterparts, and no start time is set.
    pub fn to_sync_config(&self) -> (r: CoreConfig)
        ensures
            r.window_size == Some(self.sync.window_size),
            r.start_time is None,
            r.buf_size == self.sync.buffer_size,
            (r.drop_policy is RejectNew <==> self.sync.drop_policy is RejectNew),
            (r.staleness_config is Some <==> self.staleness is Some),
            match self.staleness {
                Some(s) => match s.preset {
                    StalenessPreset::HighFrequency => r.staleness_config == Some(
                        CoreStalenessConfig {
                            heap_max_size: 512usize,
                            heap_time_horizon: 50_000_000u64,
                            precision_gap: 100_000u64,
                            timer_wheel_slots: 256usize,
                            timer_wheel_slot_duration: 5_000_000u64,
                            enable_immediate_expiration: true,
                        },
                    ),
                    StalenessPreset::LowFrequency => r.staleness_config == Some(
                        CoreStalenessConfig {
                            heap_max_size: 128usize,
                            heap_time_horizon: 500_000_000u64,
                            precision_gap: 10_000_000u64,
                            timer_wheel_slots: 64usize,
                            timer_wheel_slot_duration: 50_000_000u64,
                            enable_immediate_expiration: true,
                        },
                    ),
                    StalenessPreset::Batch => r.staleness_config == Some(
                        CoreStalenessConfig {
                            heap_max_size: 64usize,
                            heap_time_horizon: 1_000_000_000u64,
                            precision_gap: 100_000_000u64,
                            timer_wheel_slots: 32usize,
                            timer_wheel_slot_duration: 200_000_000u64,
                            enable_immediate_expiration: false,
                        },
                    ),
                },
                None => true,
            },
    {
        let staleness_config: Option<CoreStalenessConfig> = match &self.staleness {
            Some(s) => Some(
                match s.preset {
                    StalenessPreset::HighFrequency => CoreStalenessConfig::high_frequency(),
                    StalenessPreset::LowFrequency => CoreStalenessConfig::low_frequency(),
                    StalenessPreset::Batch => CoreStalenessConfig::batch_processing(),
                },
            ),
            None => None,
        };
        let drop_policy = match self.sync.drop_policy {
            DropPolicySetting::RejectNew => DropPolicy::RejectNew,
            DropPolicySetting::DropOldest => DropPolicy::DropOldest,
        };
        CoreConfig {
            window_size: Some(self.sync.window_size),
            start_time: None,
            buf_size: self.sync.buffer_size,
            drop_policy,
            staleness_config,
        }
    }
}

} // verus!
