//! Per-stream ordered buffer.
//!
//! A `Buffer` stores messages of one stream in arrival order and enforces
//! strictly increasing timestamps.  The watermark `last_ts` remembers the
//! largest accepted timestamp even after messages are popped, so a stream can
//! never rewind by reusing a stale timestamp.

use vstd::prelude::*;

use crate::types::{sat_sub, WithTimestamp};
use std::collections::VecDeque;

verus! {

/// A FIFO of messages with strictly increasing timestamps.
///
/// The buffer does not enforce a capacity cap of its own; capacity is the
/// owner's decision, so the drop policy has a single decision point.
pub struct Buffer<T> {
    items: VecDeque<T>,
    last_ts: Option<u64>,
}

impl<T> View for Buffer<T> {
    type V = Seq<T>;

    closed spec fn view(&self) -> Seq<T> {
        self.items@
    }
}

/// Whether `m` has outlived its dwell timeout at reference time `reference`.
pub open spec fn is_expired<T: WithTimestamp>(m: T, reference: u64) -> bool {
    match m.spec_timeout() {
        Some(t) => sat_sub(reference, m.ts()) >= t,
        None => false,
    }
}

impl<T: WithTimestamp> Buffer<T> {
    /// The watermark: the largest timestamp ever accepted, or `None` if the
    /// buffer never accepted a message.
    pub closed spec fn last_ts_spec(&self) -> Option<u64> {
        self.last_ts
    }

    /// Well-formedness: timestamps are strictly increasing along the buffer,
    /// and the watermark equals the newest (last accepted) timestamp.
    pub open spec fn wf(&self) -> bool {
        &&& forall|i: int, j: int|
            0 <= i < j < self@.len() ==> self@[i].ts() < self@[j].ts()
        &&& self.last_ts_spec() is None ==> self@.len() == 0
        &&& self@.len() > 0 ==> self.last_ts_spec() == Some(self@.last().ts())
    }

    /// Creates an empty buffer with room for `capacity` messages.
    pub fn with_capacity(capacity: usize) -> (r: Self)
        ensures
            r.wf(),
            r@.len() == 0,
            r.last_ts_spec() is None,
    {
        Buffer { items: VecDeque::with_capacity(capacity), last_ts: None }
    }

    /// Number of buffered messages.
    pub fn len(&self) -> (n: usize)
        ensures
            n == self@.len(),
    {
        self.items.len()
    }

    /// Whether the buffer holds no message.
    pub fn is_empty(&self) -> (r: bool)
        ensures
            r == (self@.len() == 0),
    {
        self.items.len() == 0
    }

    /// The oldest buffered message, if any.
    pub fn front(&self) -> (r: Option<&T>)
        ensures
            match r {
                None => self@.len() == 0,
                Some(m) => self@.len() > 0 && *m == self@[0],
            },
    {
        if self.items.len() == 0 {
            None
        } else {
            Some(&self.items[0])
        }
    }

    /// The newest buffered message, if any.
    pub fn back(&self) -> (r: Option<&T>)
        ensures
            match r {
                None => self@.len() == 0,
                Some(m) => self@.len() > 0 && *m == self@.last(),
            },
    {
        if self.items.len() == 0 {
            None
        } else {
            Some(&self.items[self.items.len() - 1])
        }
    }

    /// Removes and returns the oldest message.  The watermark is unchanged.
    pub fn pop_front(&mut self) -> (r: Option<T>)
        requires
            old(self).wf(),
        ensures
            final(self).wf(),
            final(self).last_ts_spec() == old(self).last_ts_spec(),
            match r {
                None => old(self)@.len() == 0 && final(self)@ == old(self)@,
                Some(m) => {
                    &&& old(self)@.len() > 0
                    &&& m == old(self)@[0]
                    &&& final(self)@ == old(self)@.skip(1)
                },
            },
    {
        let r = self.items.pop_front();
        proof {
            if old(self)@.len() > 0 {
                assert(self@ =~= old(self)@.skip(1));
            } else {
                assert(self@ =~= old(self)@);
            }
        }
        r
    }

    /// Appends `item` if its timestamp is above the watermark; otherwise the
    /// message is handed back unchanged.
    pub fn try_push(&mut self, item: T) -> (r: Result<(), T>)
        requires
            old(self).wf(),
        ensures
            final(self).wf(),
            match r {
                Ok(()) => {
                    &&& (old(self).last_ts_spec() matches Some(l) ==> item.ts() > l)
                    &&& final(self)@ == old(self)@.push(item)
                    &&& final(self).last_ts_spec() == Some(item.ts())
                },
                Err(it) => {
                    &&& it == item
                    &&& final(self)@ == old(self)@
                    &&& final(self).last_ts_spec() == old(self).last_ts_spec()
                    &&& (old(self).last_ts_spec() matches Some(l) && item.ts() <= l)
                },
            },
    {
        let timestamp = item.timestamp();
        match self.last_ts {
            Some(last) if last >= timestamp => Err(item),
            _ => {
                self.last_ts = Some(timestamp);
                self.items.push_back(item);
                Ok(())
            },
        }
    }

    /// Pops messages whose timestamp is below `ts` and returns how many were
    /// dropped.  Afterwards no remaining message has a timestamp below `ts`.
    pub fn drop_before(&mut self, ts: u64) -> (count: usize)
        requires
            old(self).wf(),
        ensures
            final(self).wf(),
            final(self).last_ts_spec() == old(self).last_ts_spec(),
            count <= old(self)@.len(),
            final(self)@ == old(self)@.skip(count as int),
            forall|i: int| 0 <= i < count ==> old(self)@[i].ts() < ts,
            forall|i: int| 0 <= i < final(self)@.len() ==> final(self)@[i].ts() >= ts,
    {
        let total = self.items.len();
        let mut count: usize = 0;
        loop
            invariant
                self.wf(),
                total == old(self)@.len(),
                count <= total,
                self@ == old(self)@.skip(count as int),
                self.last_ts_spec() == old(self).last_ts_spec(),
                forall|i: int| 0 <= i < count ==> old(self)@[i].ts() < ts,
            ensures
                self.wf(),
                count <= old(self)@.len(),
                count <= total,
                self@ == old(self)@.skip(count as int),
                self.last_ts_spec() == old(self).last_ts_spec(),
                forall|i: int| 0 <= i < count ==> old(self)@[i].ts() < ts,
                self@.len() == 0 || self@[0].ts() >= ts,
            decreases self@.len(),
        {
            if self.items.len() == 0 {
                break;
            }
            let t = self.items[0].timestamp();
            if t >= ts {
                break;
            }
            proof {
                assert(self@.len() == old(self)@.len() - count);
            }
            self.items.pop_front();
            proof {
                assert(self@ =~= old(self)@.skip(count + 1));
            }
            count = count + 1;
        }
        proof {
            assert forall|i: int| 0 <= i < self@.len() implies self@[i].ts() >= ts by {
                if i > 0 {
                    assert(self@[0].ts() < self@[i].ts());
                }
            }
        }
        count
    }

    /// Pops expired messages from the front, stopping at the first message
    /// that has not expired (or has no timeout), and returns how many were
    /// dropped.  Because timestamps increase along the buffer, a message
    /// behind a surviving one may still be expired; such messages are left in
    /// place, exactly as a front-only sweep leaves them.
    pub fn drop_expired(&mut self, reference_timestamp: u64) -> (count: usize)
        requires
            old(self).wf(),
        ensures
            final(self).wf(),
            final(self).last_ts_spec() == old(self).last_ts_spec(),
            count <= old(self)@.len(),
            final(self)@ == old(self)@.skip(count as int),
            forall|i: int| 0 <= i < count ==> is_expired(old(self)@[i], reference_timestamp),
            count < old(self)@.len() ==> !is_expired(
                old(self)@[count as int],
                reference_timestamp,
            ),
    {
        let total = self.items.len();
        let mut count: usize = 0;
        loop
            invariant
                self.wf(),
                total == old(self)@.len(),
                count <= total,
                self@ == old(self)@.skip(count as int),
                self.last_ts_spec() == old(self).last_ts_spec(),
                forall|i: int|
                    0 <= i < count ==> is_expired(old(self)@[i], reference_timestamp),
            ensures
                self.wf(),
                count <= old(self)@.len(),
                count <= total,
                self@ == old(self)@.skip(count as int),
                self.last_ts_spec() == old(self).last_ts_spec(),
                forall|i: int|
                    0 <= i < count ==> is_expired(old(self)@[i], reference_timestamp),
                self@.len() == 0 || !is_expired(self@[0], reference_timestamp),
            decreases self@.len(),
        {
            if self.items.len() == 0 {
                break;
            }
            let message = &self.items[0];
            let message_time = message.timestamp();
            let expired = match message.timeout() {
                Some(timeout) => crate::types::sub_sat(reference_timestamp, message_time)
                    >= timeout,
                None => false,
            };
            if !expired {
                break;
            }
            proof {
                assert(self@.len() == old(self)@.len() - count);
            }
            self.items.pop_front();
            proof {
                assert(self@ =~= old(self)@.skip(count + 1));
            }
            count = count + 1;
        }
        count
    }
}

} // verus!
