//! The foreign-binding surface, as plain data.
//!
//! A host exposing the synchronizer over a C-style interface works with
//! these types; the unsafe shims themselves live with the host.  Result
//! codes are plain enum variants with a verified numeric encoding.

use vstd::prelude::*;

use crate::config::DropPolicy;

verus! {

/// Policy for handling buffer overflow, as configured over the binding.
#[derive(Clone, Copy, PartialEq, Eq, Structural)]
pub enum ConfluxDropPolicy {
    /// Reject new messages when the buffer is full.
    RejectNew,
    /// Drop the oldest message to make room for the new one.
    DropOldest,
}

impl Default for ConfluxDropPolicy {
    /// New messages are rejected unless configured otherwise.
    fn default() -> (r: Self)
        ensures
            r is RejectNew,
    {
        ConfluxDropPolicy::RejectNew
    }
}

impl ConfluxDropPolicy {
    /// The numeric encoding of the policy.
    pub fn code(&self) -> (r: u32)
        ensures
            r == match *self {
                ConfluxDropPolicy::RejectNew => 0int,
                ConfluxDropPolicy::DropOldest => 1int,
            },
    {
        match *self {
            ConfluxDropPolicy::RejectNew => 0,
            ConfluxDropPolicy::DropOldest => 1,
        }
    }

    /// Decodes a numeric policy; anything but one is "reject new".
    pub fn from_code(code: u32) -> (r: Self)
        ensures
            r is DropOldest <==> code == 1,
    {
        if code == 1 {
            ConfluxDropPolicy::DropOldest
        } else {
            ConfluxDropPolicy::RejectNew
        }
    }

    /// The core drop policy this setting stands for.
    pub fn to_drop_policy(&self) -> (r: DropPolicy)
        ensures
            (r is RejectNew <==> *self is RejectNew),
    {
        match *self {
            ConfluxDropPolicy::RejectNew => DropPolicy::RejectNew,
            ConfluxDropPolicy::DropOldest => DropPolicy::DropOldest,
        }
    }
}

/// Configuration for creating a synchronizer over the binding.  A window of
/// zero milliseconds means an infinite window.
#[derive(Clone, Copy)]
pub struct ConfluxConfig {
    /// Time window in milliseconds; zero for an infinite window.
    pub window_size_ms: u64,
    /// Maximum number of messages to buffer per stream.
    pub buffer_size: usize,
    /// Policy for handling buffer overflow.
    pub drop_policy: ConfluxDropPolicy,
}

impl Default for ConfluxConfig {
    /// A fifty-millisecond window with room for sixty-four messages.
    fn default() -> (r: Self)
        ensures
            r.window_size_ms == 50,
            r.buffer_size == 64,
            r.drop_policy is RejectNew,
    {
        ConfluxConfig {
            window_size_ms: 50,
            buffer_size: 64,
            drop_policy: ConfluxDropPolicy::RejectNew,
        }
    }
}

impl ConfluxConfig {
    /// The window size in nanoseconds, `None` for the infinite window.
    pub fn window_ns(&self) -> (r: Option<u64>)
        ensures
            self.window_size_ms == 0 ==> r is None,
            self.window_size_ms > 0 ==> r == Some(
                crate::types::sat_mul_spec(self.window_size_ms, 1_000_000),
            ),
    {
        if self.window_size_ms == 0 {
            None
        } else {
            Some(crate::types::mul_sat_pub(self.window_size_ms, 1_000_000))
        }
    }
}

/// Result codes for binding operations.  (The success variant encodes as
/// zero.)
#[derive(Clone, Copy, PartialEq, Eq, Structural)]
pub enum ConfluxResult {
    /// The operation succeeded.
    Success,
    /// An invalid argument was provided.
    InvalidArgument,
    /// The buffer is full; the message was rejected.
    BufferFull,
    /// The key was not found.
    KeyNotFound,
    /// A null pointer was provided.
    NullPointer,
    /// An internal error occurred.
    InternalError,
}

impl ConfluxResult {
    /// The numeric encoding of the result.
    pub fn code(&self) -> (r: i32)
        ensures
            r == match *self {
                ConfluxResult::Success => 0int,
                ConfluxResult::InvalidArgument => 1int,
                ConfluxResult::BufferFull => 2int,
                ConfluxResult::KeyNotFound => 3int,
                ConfluxResult::NullPointer => 4int,
                ConfluxResult::InternalError => 5int,
            },
    {
        match *self {
            ConfluxResult::Success => 0,
            ConfluxResult::InvalidArgument => 1,
            ConfluxResult::BufferFull => 2,
            ConfluxResult::KeyNotFound => 3,
            ConfluxResult::NullPointer => 4,
            ConfluxResult::InternalError => 5,
        }
    }
}

/// The result code a push outcome maps to over the binding.
pub fn push_result_code<T>(r: &Result<(), crate::state::PushError<T>>) -> (c: ConfluxResult)
    ensures
        match r {
            Ok(()) => c is Success,
            Err(e) => match e {
                crate::state::PushError::UnknownKey(_) => c is KeyNotFound,
                _ => c is BufferFull,
            },
        },
{
    match r {
        Ok(()) => ConfluxResult::Success,
        Err(e) => match e {
            crate::state::PushError::UnknownKey(_) => ConfluxResult::KeyNotFound,
            _ => ConfluxResult::BufferFull,
        },
    }
}

} // verus!
