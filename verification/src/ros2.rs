//! Synchronization state for host-owned message payloads.
//!
//! Some hosts deliver messages that cannot be cloned; this variant of the
//! matcher moves them instead.  The payload type `M` is opaque to the
//! logic: only the topic and the extracted timestamp are read.  Unlike the
//! core buffers, these buffers do not enforce timestamp order; the matcher
//! works over the fronts as they are.

use vstd::prelude::*;

use crate::types::{sat_add, sat_sub, Key};
use std::collections::VecDeque;

verus! {

/// A message with its topic and extracted timestamp, owning its payload.
#[derive(Debug)]
pub struct Ros2Message<M> {
    /// The topic this message came from.
    pub topic: String,
    /// Timestamp extracted from the header, in nanoseconds.
    pub timestamp: u64,
    /// The owned payload; opaque to the synchronization logic.
    pub message: M,
    /// Original ROS stamp (sec, nanosec) for reference.
    pub ros_stamp: (i32, u32),
}

impl<M> Ros2Message<M> {
    /// Wraps a payload with its topic and timestamp.
    pub fn new(topic: String, timestamp: u64, message: M, ros_stamp: (i32, u32)) -> (r: Self)
        ensures
            r.topic@ == topic@,
            r.timestamp == timestamp,
            r.ros_stamp == ros_stamp,
    {
        Ros2Message { topic, timestamp, message, ros_stamp }
    }

    /// Consumes the wrapper and returns the payload, for publishing.
    pub fn into_message(self) -> (r: M)
        ensures
            r == self.message,
    {
        self.message
    }

    /// The payload, for inspection.
    pub fn message(&self) -> (r: &M)
        ensures
            r == &self.message,
    {
        &self.message
    }
}

/// A per-topic FIFO with move semantics and eviction at capacity.
pub struct Ros2Buffer<M> {
    messages: VecDeque<Ros2Message<M>>,
    capacity: usize,
}

impl<M> View for Ros2Buffer<M> {
    type V = Seq<Ros2Message<M>>;

    closed spec fn view(&self) -> Seq<Ros2Message<M>> {
        self.messages@
    }
}

impl<M> Ros2Buffer<M> {
    /// The configured capacity.
    pub closed spec fn capacity_spec(&self) -> usize {
        self.capacity
    }

    /// Creates an empty buffer.
    pub fn new(capacity: usize) -> (r: Self)
        ensures
            r@.len() == 0,
            r.capacity_spec() == capacity,
    {
        Ros2Buffer { messages: VecDeque::with_capacity(capacity), capacity }
    }

    /// Appends a message; at capacity the oldest message is evicted and
    /// returned.
    pub fn push(&mut self, msg: Ros2Message<M>) -> (r: Option<Ros2Message<M>>)
        ensures
            final(self).capacity_spec() == old(self).capacity_spec(),
            if old(self)@.len() >= old(self).capacity_spec() && old(self)@.len() > 0 {
                r == Some(old(self)@[0]) && final(self)@ == old(self)@.skip(1).push(msg)
            } else {
                r is None && final(self)@ == old(self)@.push(msg)
            },
    {
        let dropped = if self.messages.len() >= self.capacity {
            self.messages.pop_front()
        } else {
            None
        };
        self.messages.push_back(msg);
        proof {
            if old(self)@.len() >= old(self).capacity_spec() && old(self)@.len() > 0 {
                assert(final(self)@ =~= old(self)@.skip(1).push(msg));
            } else {
                assert(final(self)@ =~= old(self)@.push(msg));
            }
        }
        dropped
    }

    /// The front message's timestamp, if any.
    pub fn front_timestamp(&self) -> (r: Option<u64>)
        ensures
            match r {
                Some(t) => self@.len() > 0 && t == self@[0].timestamp,
                None => self@.len() == 0,
            },
    {
        if self.messages.len() == 0 {
            None
        } else {
            Some(self.messages[0].timestamp)
        }
    }

    /// The back message's timestamp, if any.
    pub fn back_timestamp(&self) -> (r: Option<u64>)
        ensures
            match r {
                Some(t) => self@.len() > 0 && t == self@.last().timestamp,
                None => self@.len() == 0,
            },
    {
        if self.messages.len() == 0 {
            None
        } else {
            Some(self.messages[self.messages.len() - 1].timestamp)
        }
    }

    /// Removes and returns the front message.
    pub fn take_front(&mut self) -> (r: Option<Ros2Message<M>>)
        ensures
            final(self).capacity_spec() == old(self).capacity_spec(),
            match r {
                Some(m) => old(self)@.len() > 0 && m == old(self)@[0] && final(self)@ == old(self)@.skip(1),
                None => old(self)@.len() == 0 && final(self)@ == old(self)@,
            },
    {
        let r = self.messages.pop_front();
        proof {
            if old(self)@.len() > 0 {
                assert(self@ =~= old(self)@.skip(1));
            } else {
                assert(self@ =~= old(self)@);
            }
        }
        r
    }

    /// Number of buffered messages.
    pub fn len(&self) -> (n: usize)
        ensures
            n == self@.len(),
    {
        self.messages.len()
    }

    /// Whether the buffer holds no message.
    pub fn is_empty(&self) -> (r: bool)
        ensures
            r == (self@.len() == 0),
    {
        self.messages.len() == 0
    }

    /// Pops front messages stamped before `threshold`, stopping at the
    /// first front at or after it, and returns how many were dropped.
    pub fn drop_before(&mut self, threshold: u64) -> (count: usize)
        ensures
            final(self).capacity_spec() == old(self).capacity_spec(),
            count <= old(self)@.len(),
            final(self)@ == old(self)@.skip(count as int),
            forall|i: int| 0 <= i < count ==> old(self)@[i].timestamp < threshold,
            count < old(self)@.len() ==> old(self)@[count as int].timestamp >= threshold,
    {
        let total = self.messages.len();
        let mut count: usize = 0;
        loop
            invariant
                total == old(self)@.len(),
                count <= total,
                self.capacity_spec() == old(self).capacity_spec(),
                self@ == old(self)@.skip(count as int),
                forall|i: int| 0 <= i < count ==> old(self)@[i].timestamp < threshold,
            ensures
                count <= total,
                self.capacity_spec() == old(self).capacity_spec(),
                self@ == old(self)@.skip(count as int),
                forall|i: int| 0 <= i < count ==> old(self)@[i].timestamp < threshold,
                self@.len() == 0 || self@[0].timestamp >= threshold,
            decreases self@.len(),
        {
            if self.messages.len() == 0 {
                break;
            }
            if self.messages[0].timestamp >= threshold {
                break;
            }
            self.messages.pop_front();
            proof {
                assert(self@ =~= old(self)@.skip(count + 1));
            }
            count = count + 1;
        }
        count
    }
}

/// Statistics about a host-payload synchronization state.
#[derive(Debug)]
pub struct SyncStats {
    /// Number of synchronized groups emitted.
    pub groups_emitted: u64,
    /// Number of late messages rejected.
    pub late_rejected: u64,
    /// Number of messages dropped (overflow or mismatch).
    pub dropped: u64,
    /// Current commit timestamp, in nanoseconds.
    pub commit_ts: u64,
    /// Current buffer sizes per topic.
    pub buffer_sizes: Vec<(String, usize)>,
}

/// Everything `try_match` guarantees about the emitted group and the state
/// change, by result.
pub open spec fn ros2_match_post<M>(
    pre: Ros2SyncState<M>,
    post: Ros2SyncState<M>,
    r: Option<Vec<(String, Ros2Message<M>)>>,
) -> bool {
    match r {
        Some(g) => {
    &&& g@.len() == pre.num_topics_spec()
    &&& (forall|j: int| 0 <= j < g@.len() ==> #[trigger] g@[j].0@ == pre.topic_at(j))
    &&& (forall|j: int| 0 <= j < g@.len() ==> #[trigger] g@[j].1 == pre.buf_at(j)@[0])
    &&& (forall|j: int|
        0 <= j < pre.num_topics_spec() ==> #[trigger] post.buf_at(
            j,
        )@ == pre.buf_at(j)@.skip(1))
    &&& (forall|j: int|
        0 <= j < g@.len() ==> #[trigger] g@[j].1.timestamp >= post.commit_spec())
    &&& (exists|j: int|
        0 <= j < g@.len() && #[trigger] g@[j].1.timestamp == post.commit_spec())
    &&& (forall|a: int, b2: int|
        0 <= a < g@.len() && 0 <= b2 < g@.len()
            ==> sat_sub(#[trigger] g@[a].1.timestamp, #[trigger] g@[b2].1.timestamp)
            <= pre.window_spec())
    &&& post.groups_emitted_spec() == sat_add_u64_spec(
        pre.groups_emitted_spec(),
        1,
    )
        },
        None => {
    &&& post.commit_spec() == pre.commit_spec()
    &&& (pre.num_topics_spec() == 0 || (exists|i: int|
        0 <= i < pre.num_topics_spec() && #[trigger] pre.buf_at(
            i,
        )@.len() == 0) || exists|w: int|
        {
            &&& 0 <= w < pre.num_topics_spec()
            &&& (forall|i: int|
                0 <= i < pre.num_topics_spec() ==> #[trigger] pre.buf_at(i)@.len() > 0 && pre.buf_at(i)@[0].timestamp
                    >= pre.buf_at(w)@[0].timestamp)
            &&& (exists|a: int|
                0 <= a < pre.num_topics_spec() && sat_sub(
                    #[trigger] pre.buf_at(a)@[0].timestamp,
                    pre.buf_at(w)@[0].timestamp,
                ) > pre.window_spec())
            &&& #[trigger] post.buf_at(w)@ == pre.buf_at(
                w,
            )@.skip(1)
            &&& (forall|j: int|
                0 <= j < pre.num_topics_spec() && j != w
                    ==> #[trigger] post.buf_at(j) == pre.buf_at(
                    j,
                ))
        })
        },
    }
}

/// The emitted-group facts assemble into the matcher's postcondition.
proof fn lemma_ros2_emit_assemble<M>(
    pre: Ros2SyncState<M>,
    post: Ros2SyncState<M>,
    g: Vec<(String, Ros2Message<M>)>,
)
    requires
        g@.len() == pre.num_topics_spec(),
        forall|j: int| 0 <= j < g@.len() ==> #[trigger] g@[j].0@ == pre.topic_at(j),
        forall|j: int| 0 <= j < g@.len() ==> #[trigger] g@[j].1 == pre.buf_at(j)@[0],
        forall|j: int|
            0 <= j < pre.num_topics_spec() ==> #[trigger] post.buf_at(j)@ == pre.buf_at(
                j,
            )@.skip(1),
        forall|j: int|
            0 <= j < g@.len() ==> #[trigger] g@[j].1.timestamp >= post.commit_spec(),
        exists|j: int|
            0 <= j < g@.len() && #[trigger] g@[j].1.timestamp == post.commit_spec(),
        forall|a: int, b2: int|
            0 <= a < g@.len() && 0 <= b2 < g@.len() ==> sat_sub(
                #[trigger] g@[a].1.timestamp,
                #[trigger] g@[b2].1.timestamp,
            ) <= pre.window_spec(),
        post.groups_emitted_spec() == sat_add_u64_spec(pre.groups_emitted_spec(), 1),
    ensures
        ros2_match_post(pre, post, Some(g)),
{
}

/// Time-window synchronization over host-owned payloads.
///
/// The algorithm: find `inf`, the latest front timestamp; if every front
/// lies within the window below `inf`, emit one message per topic;
/// otherwise drop the oldest front and report no group, so the next call
/// can make progress.
pub struct Ros2SyncState<M> {
    buffers: Vec<(String, Ros2Buffer<M>)>,
    window_size: u64,
    buffer_size: usize,
    commit_ts: u64,
    groups_emitted: u64,
    late_rejected: u64,
    dropped: u64,
}

impl<M> Ros2SyncState<M> {
    /// The per-topic buffers, in registration order.
    pub closed spec fn buffers_spec(&self) -> Seq<(String, Ros2Buffer<M>)> {
        self.buffers@
    }

    /// The commit cursor: messages stamped before it are rejected.
    pub closed spec fn commit_spec(&self) -> u64 {
        self.commit_ts
    }

    /// The window size, in nanoseconds.
    pub closed spec fn window_spec(&self) -> u64 {
        self.window_size
    }

    /// Number of groups emitted so far.
    pub closed spec fn groups_emitted_spec(&self) -> u64 {
        self.groups_emitted
    }

    /// Number of registered topics.
    pub open spec fn num_topics_spec(&self) -> int {
        self.buffers_spec().len() as int
    }

    /// The topic view at position `i`.
    pub open spec fn topic_at(&self, i: int) -> Seq<char> {
        self.buffers_spec()[i].0@
    }

    /// The buffer at position `i`.
    pub open spec fn buf_at(&self, i: int) -> Ros2Buffer<M> {
        self.buffers_spec()[i].1
    }

    /// Well-formedness: the registered topics are distinct.  (The buffers
    /// are not timestamp-ordered, so — unlike the core matcher — no claim
    /// relates buffered messages to the commit cursor: the cursor only
    /// gates future pushes.)
    pub open spec fn wf(&self) -> bool {
        forall|i: int, j: int|
            0 <= i < j < self.num_topics_spec() ==> self.topic_at(i) != self.topic_at(j)
    }

    /// Creates a state for the given topics; duplicates after the first
    /// occurrence are ignored.
    pub fn new(topics: Vec<String>, window_size: u64, buffer_size: usize) -> (r: Self)
        ensures
            r.wf(),
            r.commit_spec() == 0,
            r.window_spec() == window_size,
            r.groups_emitted_spec() == 0,
            forall|i: int| 0 <= i < r.num_topics_spec() ==> r.buf_at(i)@.len() == 0,
    {
        let ghost orig = topics@;
        let mut topics = topics;
        let mut buffers: Vec<(String, Ros2Buffer<M>)> = Vec::new();
        let total = topics.len();
        let mut i: usize = 0;
        while i < total
            invariant
                total == orig.len(),
                i <= total,
                topics@ == orig.skip(i as int),
                forall|b: int, c: int|
                    0 <= b < c < buffers@.len() ==> buffers@[b].0@ != buffers@[c].0@,
                forall|b: int| 0 <= b < buffers@.len() ==> buffers@[b].1@.len() == 0,
            decreases total - i,
        {
            let t = topics.remove(0);
            proof {
                assert(topics@ =~= orig.skip(i + 1));
            }
            let mut found = false;
            let n = buffers.len();
            let mut j: usize = 0;
            while j < n
                invariant
                    n == buffers@.len(),
                    j <= n,
                    found == exists|b: int| 0 <= b < j && buffers@[b].0@ == t@,
                decreases n - j,
            {
                if buffers[j].0.key_eq(&t) {
                    found = true;
                    proof {
                        assert(buffers@[j as int].0@ == t@);
                    }
                }
                j = j + 1;
            }
            if !found {
                buffers.push((t, Ros2Buffer::new(buffer_size)));
            }
            i = i + 1;
        }
        Ros2SyncState {
            buffers,
            window_size,
            buffer_size,
            commit_ts: 0,
            groups_emitted: 0,
            late_rejected: 0,
            dropped: 0,
        }
    }

    /// The position of `topic` among the registered topics, if any.
    fn topic_index_of(&self, topic: &String) -> (r: Option<usize>)
        ensures
            match r {
                Some(i) => 0 <= i < self.num_topics_spec() && self.topic_at(i as int) == topic@,
                None => forall|j: int|
                    0 <= j < self.num_topics_spec() ==> self.topic_at(j) != topic@,
            },
    {
        let n = self.buffers.len();
        let mut j: usize = 0;
        while j < n
            invariant
                n == self.num_topics_spec(),
                j <= n,
                forall|b: int| 0 <= b < j ==> self.topic_at(b) != topic@,
            decreases n - j,
        {
            if self.buffers[j].0.key_eq(topic) {
                return Some(j);
            }
            j = j + 1;
        }
        None
    }

    /// Files a message under its topic.  A message stamped before the
    /// commit cursor, or for an unknown topic, is handed back; at capacity
    /// the oldest message of that topic is evicted.
    pub fn push(&mut self, msg: Ros2Message<M>) -> (r: Result<(), Ros2Message<M>>)
        requires
            old(self).wf(),
        ensures
            final(self).wf(),
            final(self).commit_spec() == old(self).commit_spec(),
            final(self).window_spec() == old(self).window_spec(),
            final(self).num_topics_spec() == old(self).num_topics_spec(),
            match r {
                Err(m) => {
                    &&& m == msg
                    &&& (m.timestamp < old(self).commit_spec() || (forall|j: int|
                        0 <= j < old(self).num_topics_spec() ==> old(self).topic_at(j)
                            != msg.topic@))
                },
                Ok(()) => {
                    &&& msg.timestamp >= old(self).commit_spec()
                    &&& exists|i: int|
                        {
                            &&& 0 <= i < old(self).num_topics_spec()
                            &&& #[trigger] old(self).topic_at(i) == msg.topic@
                            &&& final(self).buf_at(i)@.last() == msg
                            &&& final(self).buf_at(i)@ == (
                            if old(self).buf_at(i)@.len() >= old(self).buf_at(
                                i,
                            ).capacity_spec() && old(self).buf_at(i)@.len() > 0 {
                                old(self).buf_at(i)@.skip(1)
                            } else {
                                old(self).buf_at(i)@
                            }).push(msg)
                            &&& final(self).buf_at(i).capacity_spec() == old(self).buf_at(
                                i,
                            ).capacity_spec()
                            &&& (forall|j: int|
                                0 <= j < old(self).num_topics_spec() && j != i
                                    ==> final(self).buf_at(j) == old(self).buf_at(j))
                        }
                },
            },
    {
        if msg.timestamp < self.commit_ts {
            self.late_rejected = crate::ros2::sat_add_u64(self.late_rejected, 1);
            proof {
                lemma_wf_same_buffers(*old(self), *self);
            }
            return Err(msg);
        }
        let idx = match self.topic_index_of(&msg.topic) {
            Some(i) => i,
            None => {
                return Err(msg);
            },
        };
        let ghost pre = self.buffers@;
        let ghost gmsg = msg;
        let (t0, mut b) = self.buffers.remove(idx);
        let evicted = b.push(msg);
        self.buffers.insert(idx, (t0, b));
        match evicted {
            Some(_) => {
                self.dropped = crate::ros2::sat_add_u64(self.dropped, 1);
            },
            None => {},
        }
        proof {
            assert(self.buffers@.len() == pre.len());
            assert(self.buffers@[idx as int].0 == pre[idx as int].0);
            assert(forall|j: int|
                0 <= j < pre.len() && j != idx ==> self.buffers@[j] == pre[j]);
            assert(self.buf_at(idx as int)@.last() == gmsg);
            assert forall|a: int, b2: int|
                0 <= a < b2 < self.num_topics_spec() implies self.topic_at(a) != self.topic_at(
                b2,
            ) by {
                assert(self.buffers@[a].0 == pre[a].0);
                assert(self.buffers@[b2].0 == pre[b2].0);
                assert(old(self).topic_at(a) != old(self).topic_at(b2));
            }
        }
        Ok(())
    }

    /// Whether every topic has at least one buffered message.
    pub fn is_ready(&self) -> (r: bool)
        ensures
            r == forall|i: int|
                0 <= i < self.num_topics_spec() ==> #[trigger] self.buf_at(i)@.len() > 0,
    {
        let n = self.buffers.len();
        let mut j: usize = 0;
        while j < n
            invariant
                n == self.num_topics_spec(),
                j <= n,
                forall|b: int| 0 <= b < j ==> #[trigger] self.buf_at(b)@.len() > 0,
            decreases n - j,
        {
            if self.buffers[j].1.is_empty() {
                proof {
                    assert(self.buf_at(j as int)@.len() == 0);
                }
                return false;
            }
            j = j + 1;
        }
        true
    }

    /// Whether every topic has at least two buffered messages, so the
    /// matcher can make progress even when the fronts do not match.
    pub fn is_well_filled(&self) -> (r: bool)
        ensures
            r == forall|i: int|
                0 <= i < self.num_topics_spec() ==> #[trigger] self.buf_at(i)@.len() >= 2,
    {
        let n = self.buffers.len();
        let mut j: usize = 0;
        while j < n
            invariant
                n == self.num_topics_spec(),
                j <= n,
                forall|b: int| 0 <= b < j ==> #[trigger] self.buf_at(b)@.len() >= 2,
            decreases n - j,
        {
            if self.buffers[j].1.len() < 2 {
                proof {
                    assert(self.buf_at(j as int)@.len() < 2);
                }
                return false;
            }
            j = j + 1;
        }
        true
    }

    /// Tries to extract one synchronized group: when every front lies
    /// within the window below the latest front, one message per topic is
    /// emitted in registration order and the commit cursor advances to the
    /// popped minimum.  Otherwise the oldest front is dropped (so later
    /// calls can progress) and no group is returned.
    #[verifier::rlimit(100)]
    #[verifier::spinoff_prover]
    pub fn try_match(&mut self) -> (r: Option<Vec<(String, Ros2Message<M>)>>)
        requires
            old(self).wf(),
        ensures
            final(self).wf(),
            final(self).num_topics_spec() == old(self).num_topics_spec(),
            final(self).window_spec() == old(self).window_spec(),
            ros2_match_post(*old(self), *final(self), r),
    {
        if self.buffers.len() == 0 {
            return None;
        }
        if !self.is_ready() {
            return None;
        }
        let ghost s0 = *self;
        let n = self.buffers.len();

        // inf: the latest front timestamp
        let mut inf: u64 = 0;
        let mut inf_idx: usize = 0;
        let mut i: usize = 0;
        while i < n
            invariant
                self == old(self),
                self.wf(),
                n == self.num_topics_spec(),
                forall|b: int| 0 <= b < n ==> #[trigger] self.buf_at(b)@.len() > 0,
                i <= n,
                forall|b: int| 0 <= b < i ==> #[trigger] self.buf_at(b)@[0].timestamp <= inf,
                i > 0 ==> inf_idx < i && self.buf_at(inf_idx as int)@[0].timestamp == inf,
                i == 0 ==> inf == 0 && inf_idx == 0,
            decreases n - i,
        {
            let t = match self.buffers[i].1.front_timestamp() {
                Some(t) => t,
                None => 0,  // unreachable: every buffer is non-empty
            };
            if i == 0 || t > inf {
                inf = t;
                inf_idx = i;
            }
            i = i + 1;
        }

        // check that every front lies within the window below inf
        let mut all_within = true;
        let mut i: usize = 0;
        while i < n
            invariant
                self == old(self),
                self.wf(),
                n == self.num_topics_spec(),
                forall|b: int| 0 <= b < n ==> #[trigger] self.buf_at(b)@.len() > 0,
                i <= n,
                all_within == forall|b: int|
                    0 <= b < i ==> sat_sub(
                        inf,
                        #[trigger] self.buf_at(b)@[0].timestamp,
                    ) <= self.window_spec(),
            decreases n - i,
        {
            let t = match self.buffers[i].1.front_timestamp() {
                Some(t) => t,
                None => 0,  // unreachable: every buffer is non-empty
            };
            if crate::types::sub_sat(inf, t) > self.window_size {
                all_within = false;
                proof {
                    assert(sat_sub(inf, self.buf_at(i as int)@[0].timestamp)
                        > self.window_spec());
                }
            }
            i = i + 1;
        }

        if !all_within {
            // drop the oldest front to make progress
            let mut min_idx: usize = 0;
            let mut min_ts: u64 = u64::MAX;
            let mut i: usize = 0;
            while i < n
                invariant
                    self == old(self),
                    self.wf(),
                    n == self.num_topics_spec(),
                    forall|b: int| 0 <= b < n ==> #[trigger] self.buf_at(b)@.len() > 0,
                    i <= n,
                    i > 0 ==> min_idx < i && self.buf_at(min_idx as int)@[0].timestamp
                        == min_ts,
                    forall|b: int|
                        0 <= b < i ==> #[trigger] self.buf_at(b)@[0].timestamp >= min_ts,
                    i == 0 ==> min_ts == u64::MAX && min_idx == 0,
                decreases n - i,
            {
                let t = match self.buffers[i].1.front_timestamp() {
                    Some(t) => t,
                    None => u64::MAX,  // unreachable: every buffer is non-empty
                };
                if i == 0 || t < min_ts {
                    min_ts = t;
                    min_idx = i;
                }
                i = i + 1;
            }
            self.dropped = crate::ros2::sat_add_u64(self.dropped, 1);
            proof {
                lemma_wf_same_buffers(*old(self), *self);
            }
            let ghost mid0 = *self;
            let ghost pre = self.buffers@;
            let (t0, mut b) = self.buffers.remove(min_idx);
            proof {
                assert(b == s0.buf_at(min_idx as int));
            }
            let _ = b.take_front();
            let ghost gb = b;
            self.buffers.insert(min_idx, (t0, b));
            proof {
                assert(self.buffers@.len() == pre.len());
                assert(self.buffers@[min_idx as int].0 == pre[min_idx as int].0);
                assert(forall|j: int|
                    0 <= j < pre.len() && j != min_idx ==> self.buffers@[j] == pre[j]);
                assert(self.buffers@[min_idx as int].1 == gb);
                assert(self.buf_at(min_idx as int)@ == s0.buf_at(min_idx as int)@.skip(1));
                assert forall|j: int|
                    0 <= j < s0.num_topics_spec() && j != min_idx implies #[trigger] self.buf_at(
                    j,
                ) == s0.buf_at(j) by {
                    assert(self.buffers@[j] == pre[j]);
                }
                assert forall|i: int|
                    0 <= i < s0.num_topics_spec() implies #[trigger] s0.buf_at(i)@.len() > 0
                    && s0.buf_at(i)@[0].timestamp >= s0.buf_at(min_idx as int)@[0].timestamp
                    by {
                    assert(s0.buf_at(i)@[0].timestamp >= min_ts);
                }
                // some front is outside the window below the latest front,
                // witnessed by the buffer attaining the latest front
                let bv = choose|b: int|
                    0 <= b < n && sat_sub(inf, s0.buf_at(b)@[0].timestamp)
                        > s0.window_spec();
                assert(s0.buf_at(bv)@[0].timestamp >= min_ts);
                assert(s0.buf_at(min_idx as int)@[0].timestamp == min_ts);
                assert(sat_sub(inf, min_ts) > s0.window_spec());
                assert(s0.buf_at(inf_idx as int)@[0].timestamp == inf);
                assert(sat_sub(
                    s0.buf_at(inf_idx as int)@[0].timestamp,
                    s0.buf_at(min_idx as int)@[0].timestamp,
                ) > s0.window_spec());
                assert forall|a: int, b2: int|
                    0 <= a < b2 < self.num_topics_spec() implies self.topic_at(a)
                    != self.topic_at(b2) by {
                    assert(self.buffers@[a].0 == pre[a].0);
                    assert(self.buffers@[b2].0 == pre[b2].0);
                    assert(mid0.topic_at(a) != mid0.topic_at(b2));
                }
            }
            return None;
        }

        // all fronts are within the window: emit one message per topic
        let g = self.pop_all_fronts();
        proof {
            assert forall|a: int, b2: int|
                0 <= a < g@.len() && 0 <= b2 < g@.len() implies sat_sub(
                #[trigger] g@[a].1.timestamp,
                #[trigger] g@[b2].1.timestamp,
            ) <= s0.window_spec() by {
                assert(g@[a].1 == s0.buf_at(a)@[0]);
                assert(g@[b2].1 == s0.buf_at(b2)@[0]);
                assert(s0.buf_at(a)@[0].timestamp <= inf);
                assert(sat_sub(inf, s0.buf_at(b2)@[0].timestamp) <= s0.window_spec());
            }
            lemma_ros2_emit_assemble(s0, *self, g);
        }
        Some(g)
    }

    /// Pops the front message of every topic, in registration order, and
    /// advances the commit cursor to the popped minimum, counting one
    /// emitted group.
    #[verifier::rlimit(100)]
    #[verifier::spinoff_prover]
    fn pop_all_fronts(&mut self) -> (g: Vec<(String, Ros2Message<M>)>)
        requires
            old(self).wf(),
            forall|b: int|
                0 <= b < old(self).num_topics_spec() ==> #[trigger] old(self).buf_at(
                    b,
                )@.len() > 0,
            old(self).num_topics_spec() > 0,
        ensures
            final(self).wf(),
            final(self).num_topics_spec() == old(self).num_topics_spec(),
            final(self).window_spec() == old(self).window_spec(),
            g@.len() == old(self).num_topics_spec(),
            forall|j: int| 0 <= j < g@.len() ==> #[trigger] g@[j].0@ == old(self).topic_at(j),
            forall|j: int|
                0 <= j < g@.len() ==> #[trigger] g@[j].1 == old(self).buf_at(j)@[0],
            forall|j: int|
                0 <= j < old(self).num_topics_spec() ==> #[trigger] final(self).buf_at(j)@
                    == old(self).buf_at(j)@.skip(1),
            forall|j: int|
                0 <= j < g@.len() ==> #[trigger] g@[j].1.timestamp >= final(self).commit_spec(),
            exists|j: int|
                0 <= j < g@.len() && #[trigger] g@[j].1.timestamp == final(self).commit_spec(),
            final(self).groups_emitted_spec() == sat_add_u64_spec(
                old(self).groups_emitted_spec(),
                1,
            ),
    {
        let ghost s0 = *self;
        let n = self.buffers.len();
        let mut g: Vec<(String, Ros2Message<M>)> = Vec::new();
        let mut min_ts: u64 = u64::MAX;
        let mut min_j: usize = 0;
        let mut i: usize = 0;
        while i < n
            invariant
                s0.wf(),
                n == s0.num_topics_spec(),
                self.num_topics_spec() == n,
                self.commit_spec() == s0.commit_spec(),
                self.window_spec() == s0.window_spec(),
                self.groups_emitted_spec() == s0.groups_emitted_spec(),
                forall|b: int| 0 <= b < n ==> #[trigger] s0.buf_at(b)@.len() > 0,
                forall|b: int| i <= b < n ==> self.buffers_spec()[b] == s0.buffers_spec()[b],
                forall|b: int| 0 <= b < n ==> self.topic_at(b) == s0.topic_at(b),
                forall|b: int|
                    0 <= b < i ==> #[trigger] self.buf_at(b)@ == s0.buf_at(b)@.skip(1),
                i <= n,
                g@.len() == i,
                forall|j: int| 0 <= j < i ==> #[trigger] g@[j].0@ == s0.topic_at(j),
                forall|j: int| 0 <= j < i ==> #[trigger] g@[j].1 == s0.buf_at(j)@[0],
                forall|j: int|
                    0 <= j < i ==> #[trigger] g@[j].1.timestamp >= min_ts,
                i > 0 ==> min_j < i && g@[min_j as int].1.timestamp == min_ts,
                i == 0 ==> min_ts == u64::MAX && min_j == 0,
            decreases n - i,
        {
            let ghost iter0 = *self;
            let ghost pre = self.buffers@;
            let (t0, mut b) = self.buffers.remove(i);
            proof {
                assert(b == s0.buf_at(i as int));
            }
            let tc = t0.key_clone();
            let popped = b.take_front();
            let ghost gb = b;
            self.buffers.insert(i, (t0, b));
            proof {
                assert(pre[i as int] == s0.buffers_spec()[i as int]);
                assert(self.buffers@[i as int].1 == gb);
                assert(gb@ == s0.buf_at(i as int)@.skip(1));
            }
            match popped {
                Some(m) => {
                    let mt = m.timestamp;
                    proof {
                        assert(self.buffers@.len() == pre.len());
                        assert(self.buffers@[i as int].0 == pre[i as int].0);
                        assert(forall|j: int|
                            0 <= j < pre.len() && j != i ==> self.buffers@[j] == pre[j]);
                        assert(m == s0.buf_at(i as int)@[0]);
                    }
                    let ghost g0 = g@;
                    let ghost gm = m;
                    g.push((tc, m));
                    if i == 0 || mt < min_ts {
                        min_ts = mt;
                        min_j = i;
                    }
                    proof {
                        assert(g@ =~= g0.push((tc, gm)));
                        assert forall|j: int|
                            0 <= j < i + 1 implies #[trigger] g@[j].0@ == s0.topic_at(j) by {
                            if j < i {
                                assert(g@[j] == g0[j]);
                            }
                        }
                        assert forall|j: int|
                            0 <= j < i + 1 implies #[trigger] g@[j].1 == s0.buf_at(j)@[0] by {
                            if j < i {
                                assert(g@[j] == g0[j]);
                            }
                        }
                        assert forall|j: int|
                            0 <= j < i + 1 implies #[trigger] g@[j].1.timestamp >= min_ts by {
                            if j < i {
                                assert(g@[j] == g0[j]);
                            } else {
                                assert(g@[j].1 == gm);
                                assert(gm.timestamp == mt);
                            }
                        }
                        assert forall|b2: int|
                            0 <= b2 < i + 1 implies #[trigger] self.buf_at(b2)@ == s0.buf_at(
                            b2,
                        )@.skip(1) by {
                            if b2 < i {
                                assert(self.buffers@[b2] == pre[b2]);
                                assert(iter0.buf_at(b2)@ == s0.buf_at(b2)@.skip(1));
                                assert(self.buf_at(b2) == iter0.buf_at(b2));
                            } else {
                                assert(self.buffers@[i as int].1 == gb);
                                assert(gb@ == s0.buf_at(i as int)@.skip(1));
                            }
                        }
                    }
                },
                None => {
                    proof {
                        assert(false);
                    }
                    return Vec::new();
                },
            }
            i = i + 1;
        }
        let ghost fin0 = *self;
        self.commit_ts = min_ts;
        self.groups_emitted = crate::ros2::sat_add_u64(self.groups_emitted, 1);
        proof {
            assert(self.buffers_spec() == fin0.buffers_spec());
            assert forall|j: int|
                0 <= j < n implies #[trigger] self.buf_at(j)@ == s0.buf_at(j)@.skip(1) by {
                assert(self.buffers_spec()[j] == fin0.buffers_spec()[j]);
                assert(fin0.buf_at(j)@ == s0.buf_at(j)@.skip(1));
            }
            assert forall|a: int, b2: int|
                0 <= a < b2 < self.num_topics_spec() implies self.topic_at(a) != self.topic_at(
                b2,
            ) by {
                assert(s0.wf());
                assert(s0.topic_at(a) != s0.topic_at(b2));
                assert(self.buffers_spec()[a] == fin0.buffers_spec()[a]);
                assert(self.buffers_spec()[b2] == fin0.buffers_spec()[b2]);
                assert(fin0.topic_at(a) == s0.topic_at(a));
                assert(fin0.topic_at(b2) == s0.topic_at(b2));
            }
            assert forall|j: int|
                0 <= j < g@.len() implies #[trigger] g@[j].1.timestamp
                >= self.commit_spec() by {
                assert(g@[j].1.timestamp >= min_ts);
            }
            assert(g@[min_j as int].1.timestamp == min_ts);
            assert(g@[min_j as int].1.timestamp == self.commit_spec());
        }
        g
    }

    /// Current statistics.
    pub fn stats(&self) -> (r: SyncStats)
        ensures
            r.groups_emitted == self.groups_emitted_spec(),
            r.commit_ts == self.commit_spec(),
            r.buffer_sizes@.len() == self.num_topics_spec(),
    {
        let n = self.buffers.len();
        let mut buffer_sizes: Vec<(String, usize)> = Vec::new();
        let mut j: usize = 0;
        while j < n
            invariant
                n == self.num_topics_spec(),
                j <= n,
                buffer_sizes@.len() == j,
            decreases n - j,
        {
            let t = self.buffers[j].0.key_clone();
            let l = self.buffers[j].1.len();
            buffer_sizes.push((t, l));
            j = j + 1;
        }
        SyncStats {
            groups_emitted: self.groups_emitted,
            late_rejected: self.late_rejected,
            dropped: self.dropped,
            commit_ts: self.commit_ts,
            buffer_sizes,
        }
    }

    /// The current commit timestamp.
    pub fn commit_timestamp(&self) -> (r: u64)
        ensures
            r == self.commit_spec(),
    {
        self.commit_ts
    }

    /// Number of registered topics.
    pub fn num_topics(&self) -> (n: usize)
        ensures
            n == self.num_topics_spec(),
    {
        self.buffers.len()
    }
}

/// Well-formedness depends only on the buffers and the commit cursor, so
/// it carries over between states that agree on them.
proof fn lemma_wf_same_buffers<M>(a: Ros2SyncState<M>, b: Ros2SyncState<M>)
    requires
        a.wf(),
        b.buffers_spec() == a.buffers_spec(),
    ensures
        b.wf(),
{
    assert forall|i: int, j: int|
        0 <= i < j < b.num_topics_spec() implies b.topic_at(i) != b.topic_at(j) by {
        assert(b.buffers_spec()[i] == a.buffers_spec()[i]);
        assert(b.buffers_spec()[j] == a.buffers_spec()[j]);
        assert(a.topic_at(i) != a.topic_at(j));
    }
}

/// Saturating increment for counters.
pub open spec fn sat_add_u64_spec(a: u64, b: u64) -> u64 {
    sat_add(a, b)
}

/// Executable saturating addition for counters.
pub(crate) fn sat_add_u64(a: u64, b: u64) -> (r: u64)
    ensures
        r == sat_add_u64_spec(a, b),
{
    crate::types::add_sat(a, b)
}

} // verus!
