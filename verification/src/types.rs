//! Core traits and shared types.
//!
//! Timestamps and time spans are nanosecond counts held in `u64`.

use vstd::prelude::*;

verus! {

/// Saturating addition on nanosecond counts.
pub open spec fn sat_add(a: u64, b: u64) -> u64 {
    if a + b > u64::MAX {
        u64::MAX
    } else {
        (a + b) as u64
    }
}

/// Saturating subtraction on nanosecond counts.
pub open spec fn sat_sub(a: u64, b: u64) -> u64 {
    if a >= b {
        (a - b) as u64
    } else {
        0u64
    }
}

/// Executable saturating addition, exactly `sat_add`.
pub fn add_sat(a: u64, b: u64) -> (r: u64)
    ensures
        r == sat_add(a, b),
{
    if a <= u64::MAX - b {
        a + b
    } else {
        u64::MAX
    }
}

/// Executable saturating subtraction, exactly `sat_sub`.
pub fn sub_sat(a: u64, b: u64) -> (r: u64)
    ensures
        r == sat_sub(a, b),
{
    if a >= b {
        a - b
    } else {
        0
    }
}

/// A message that carries its own timestamp, and optionally a maximum dwell
/// time before it expires.  Streams must produce strictly increasing
/// timestamps per key; the buffers enforce this.
pub trait WithTimestamp: Sized {
    /// The timestamp of the message, in nanoseconds.
    spec fn ts(&self) -> u64;

    /// The optional dwell timeout of the message, in nanoseconds.
    spec fn spec_timeout(&self) -> Option<u64>;

    /// Returns the timestamp of the message.
    fn timestamp(&self) -> (t: u64)
        ensures
            t == self.ts(),
    ;

    /// Returns how long the message may stay buffered, or `None` for no
    /// limit.
    fn timeout(&self) -> (r: Option<u64>)
        ensures
            r == self.spec_timeout(),
    ;

    /// Returns a copy of the message that carries the same timestamp and
    /// timeout.
    fn dup(&self) -> (r: Self)
        ensures
            r.ts() == self.ts(),
            r.spec_timeout() == self.spec_timeout(),
    ;
}

/// A stream identifier.  Keys are compared and copied by their view, so two
/// keys denote the same stream exactly when their views are equal.
pub trait Key: View + Sized {
    /// Decides whether two keys denote the same stream.
    fn key_eq(&self, other: &Self) -> (r: bool)
        ensures
            r == (self@ == other@),
    ;

    /// Returns a copy of the key denoting the same stream.
    fn key_clone(&self) -> (r: Self)
        ensures
            r@ == self@,
    ;
}

impl Key for String {
    fn key_eq(&self, other: &Self) -> (r: bool)
        ensures
            r == (self@ == other@),
    {
        *self == *other
    }

    fn key_clone(&self) -> (r: Self)
        ensures
            r@ == self@,
    {
        self.clone()
    }
}

impl Key for u64 {
    fn key_eq(&self, other: &Self) -> (r: bool)
        ensures
            r == (self@ == other@),
    {
        *self == *other
    }

    fn key_clone(&self) -> (r: Self)
        ensures
            r@ == self@,
    {
        *self
    }
}

/// The pacing feedback snapshot emitted after state changes.  Readers only
/// ever observe the most recent snapshot.
#[derive(Debug)]
pub struct Feedback<K> {
    /// Keys whose buffers still have room.
    pub accepted_keys: Vec<K>,
    /// The commit cursor at the time of the snapshot.
    pub commit_timestamp: Option<u64>,
    /// Reserved: upper bound on accepted timestamps (currently never set).
    pub accepted_max_timestamp: Option<u64>,
}

/// The least element of a sequence of instants; `u64::MAX` when empty.
pub open spec fn seq_min(s: Seq<u64>) -> u64
    decreases s.len(),
{
    if s.len() == 0 {
        u64::MAX
    } else {
        let p = seq_min(s.drop_last());
        if s.last() < p {
            s.last()
        } else {
            p
        }
    }
}

/// The greatest element of a sequence of instants; `0` when empty.
pub open spec fn seq_max(s: Seq<u64>) -> u64
    decreases s.len(),
{
    if s.len() == 0 {
        0
    } else {
        let p = seq_max(s.drop_last());
        if s.last() > p {
            s.last()
        } else {
            p
        }
    }
}

/// `seq_min` bounds every element from below and is attained.
pub proof fn lemma_seq_min(s: Seq<u64>)
    ensures
        forall|k: int| 0 <= k < s.len() ==> s[k] >= seq_min(s),
        s.len() > 0 ==> exists|k: int| 0 <= k < s.len() && s[k] == seq_min(s),
    decreases s.len(),
{
    if s.len() > 0 {
        lemma_seq_min(s.drop_last());
        assert(forall|k: int| 0 <= k < s.len() - 1 ==> s[k] == s.drop_last()[k]);
        let p = seq_min(s.drop_last());
        if s.last() <= p {
            assert(s[s.len() - 1] == seq_min(s));
        } else {
            let w = choose|k: int|
                0 <= k < s.drop_last().len() && s.drop_last()[k] == seq_min(s.drop_last());
            assert(s[w] == seq_min(s));
        }
    }
}

/// `seq_max` bounds every element from above and is attained.
pub proof fn lemma_seq_max(s: Seq<u64>)
    ensures
        forall|k: int| 0 <= k < s.len() ==> s[k] <= seq_max(s),
        s.len() > 0 ==> exists|k: int| 0 <= k < s.len() && s[k] == seq_max(s),
    decreases s.len(),
{
    if s.len() > 0 {
        lemma_seq_max(s.drop_last());
        assert(forall|k: int| 0 <= k < s.len() - 1 ==> s[k] == s.drop_last()[k]);
        let p = seq_max(s.drop_last());
        if s.last() >= p {
            assert(s[s.len() - 1] == seq_max(s));
        } else {
            let w = choose|k: int|
                0 <= k < s.drop_last().len() && s.drop_last()[k] == seq_max(s.drop_last());
            assert(s[w] == seq_max(s));
        }
    }
}

/// Every element is at most any later element.
pub open spec fn non_decreasing(s: Seq<u64>) -> bool {
    forall|a: int, b: int| 0 <= a <= b < s.len() ==> s[a] <= s[b]
}

/// Saturating multiplication on nanosecond counts.
pub open spec fn sat_mul_spec(a: u64, b: u64) -> u64 {
    if a * b > u64::MAX {
        u64::MAX
    } else {
        (a * b) as u64
    }
}

/// Executable saturating multiplication, exactly `sat_mul_spec`.
pub fn mul_sat_pub(a: u64, b: u64) -> (r: u64)
    ensures
        r == sat_mul_spec(a, b),
{
    proof {
        assert((a as int) * (b as int) <= u128::MAX as int) by (nonlinear_arith)
            requires
                a <= u64::MAX,
                b <= u64::MAX,
        ;
    }
    let p = (a as u128) * (b as u128);
    if p > u64::MAX as u128 {
        u64::MAX
    } else {
        p as u64
    }
}

} // verus!
