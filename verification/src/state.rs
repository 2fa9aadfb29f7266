//! The time-window matching state machine.
//!
//! `State` owns one ordered buffer per registered key, a monotone commit
//! cursor, and optionally a staleness detector.  `try_match` pops one message
//! per stream whenever the buffered timestamps admit a group within the
//! configured window; `push` feeds a stream, enforcing the commit cursor,
//! the per-stream capacity and the drop policy.

use vstd::prelude::*;

use crate::buffer::{is_expired, Buffer};
use crate::config::DropPolicy;
use crate::staleness::{detector_add_post, StalenessDetector};
use crate::types::{sat_add, sat_sub, seq_max, seq_min, Feedback, Key, WithTimestamp};
use crate::types::{lemma_seq_max, lemma_seq_min};

verus! {

/// Why a push was refused.  Every variant carries the rejected message so
/// the caller can retry, log or salvage it.
#[derive(Debug)]
pub enum PushError<T> {
    /// The message's timestamp is at or before the commit cursor.
    LateMessage(T),
    /// The key was not registered.
    UnknownKey(T),
    /// The buffer is full and the policy rejects new messages.
    BufferFull(T),
    /// The message's timestamp does not exceed the stream's watermark.
    OutOfOrder(T),
    /// A blocking push ran out of time waiting for space.
    Timeout(T),
}

impl<T> PushError<T> {
    /// The rejected message inside the error.
    pub open spec fn inner(self) -> T {
        match self {
            PushError::LateMessage(t) => t,
            PushError::UnknownKey(t) => t,
            PushError::BufferFull(t) => t,
            PushError::OutOfOrder(t) => t,
            PushError::Timeout(t) => t,
        }
    }

    /// Extracts the rejected message.
    pub fn into_inner(self) -> (r: T)
        ensures
            r == self.inner(),
    {
        match self {
            PushError::LateMessage(t) => t,
            PushError::UnknownKey(t) => t,
            PushError::BufferFull(t) => t,
            PushError::OutOfOrder(t) => t,
            PushError::Timeout(t) => t,
        }
    }
}

/// The staleness timeout a message is registered with: its own timeout if it
/// has one, else the window size, else a one-minute default.
pub open spec fn staleness_timeout_of(item_timeout: Option<u64>, window: Option<u64>) -> u64 {
    match item_timeout {
        Some(t) => t,
        None => match window {
            Some(w) => w,
            None => 60_000_000_000u64,
        },
    }
}

/// How a push changes an attached staleness detector: nothing when none is
/// attached; otherwise some copy of the key and some duplicate of the
/// message (equal in timestamp and timeout) is registered with the staleness
/// timeout that `staleness_timeout_of` selects.
pub open spec fn registers_staleness<K: Key, T: WithTimestamp>(
    d0: Option<StalenessDetector<K, T>>,
    d1: Option<StalenessDetector<K, T>>,
    key: K,
    item: T,
    window: Option<u64>,
    now: u64,
) -> bool {
    match (d0, d1) {
        (Option::None, Option::None) => true,
        (Option::Some(a), Option::Some(b)) => exists|k2: K, m: T|
            {
                &&& k2@ == key@
                &&& m.ts() == item.ts()
                &&& m.spec_timeout() == item.spec_timeout()
                &&& detector_add_post(
                    a,
                    b,
                    k2,
                    m,
                    staleness_timeout_of(item.spec_timeout(), window),
                    now,
                )
            },
        _ => false,
    }
}

/// The matching state: insertion-ordered per-key buffers, the commit cursor,
/// the capacity and window settings, and an optional staleness detector.
pub struct State<K, T> {
    buffers: Vec<(K, Buffer<T>)>,
    commit_ts: Option<u64>,
    buf_size: usize,
    window_size: Option<u64>,
    drop_policy: DropPolicy,
    staleness_detector: Option<StalenessDetector<K, T>>,
}

impl<K: Key, T: WithTimestamp> State<K, T> {
    /// The registered keys with their buffers, in registration order.
    pub closed spec fn buffers_spec(&self) -> Seq<(K, Buffer<T>)> {
        self.buffers@
    }

    /// The commit cursor: no message at or before it is accepted, and every
    /// emitted group's minimum timestamp equals it at emission.
    pub closed spec fn commit_spec(&self) -> Option<u64> {
        self.commit_ts
    }

    /// The per-stream capacity.
    pub closed spec fn buf_size_spec(&self) -> usize {
        self.buf_size
    }

    /// The window size, `None` for an infinite window.
    pub closed spec fn window_spec(&self) -> Option<u64> {
        self.window_size
    }

    /// The overflow policy.
    pub closed spec fn policy_spec(&self) -> DropPolicy {
        self.drop_policy
    }

    /// The attached staleness detector, if any.
    pub closed spec fn detector_spec(&self) -> Option<StalenessDetector<K, T>> {
        self.staleness_detector
    }

    /// Number of registered keys.
    pub open spec fn num_keys(&self) -> int {
        self.buffers_spec().len() as int
    }

    /// The view of the key at position `i`.
    pub open spec fn key_at(&self, i: int) -> K::V {
        self.buffers_spec()[i].0@
    }

    /// The buffer at position `i`.
    pub open spec fn buf_at(&self, i: int) -> Buffer<T> {
        self.buffers_spec()[i].1
    }

    /// Every buffer is at capacity.
    pub open spec fn full_spec(&self) -> bool {
        forall|i: int|
            0 <= i < self.num_keys() ==> #[trigger] self.buf_at(i)@.len() >= self.buf_size_spec()
    }

    /// Every buffer holds at least two messages.
    pub open spec fn ready_spec(&self) -> bool {
        forall|i: int| 0 <= i < self.num_keys() ==> #[trigger] self.buf_at(i)@.len() >= 2
    }

    /// Some buffer is empty.
    pub open spec fn some_empty_spec(&self) -> bool {
        exists|i: int| 0 <= i < self.num_keys() && #[trigger] self.buf_at(i)@.len() == 0
    }

    /// Every buffer holds exactly one message.
    pub open spec fn all_one_spec(&self) -> bool {
        forall|i: int| 0 <= i < self.num_keys() ==> #[trigger] self.buf_at(i)@.len() == 1
    }

    /// No group can be formed as the state stands: some buffer is empty, or
    /// the window is finite, no buffer is down to one message, and the
    /// spread between the latest front and the earliest back does not cover
    /// the window.
    pub open spec fn no_match_possible(&self) -> bool {
        self.some_empty_spec() || match self.window_spec() {
            Some(d) => self.all_nonempty() && !self.all_one_spec() && crate::types::sat_add(
                self.inf_spec(),
                d,
            ) > self.sup_spec(),
            None => false,
        }
    }

    /// All buffers hold at least one message.
    pub open spec fn all_nonempty(&self) -> bool {
        forall|i: int| 0 <= i < self.num_keys() ==> self.buf_at(i)@.len() > 0
    }

    /// The buffered message sequences, one per stream, in key order.
    pub open spec fn views(&self) -> Seq<Seq<T>> {
        Seq::new(self.num_keys() as nat, |i: int| self.buf_at(i)@)
    }

    /// The front (oldest) timestamps, one per buffer; meaningful when all
    /// buffers are non-empty.
    pub open spec fn fronts(&self) -> Seq<u64> {
        Seq::new(self.num_keys() as nat, |i: int| self.buf_at(i)@[0].ts())
    }

    /// The back (newest) timestamps, one per buffer.
    pub open spec fn backs(&self) -> Seq<u64> {
        Seq::new(self.num_keys() as nat, |i: int| self.buf_at(i)@.last().ts())
    }

    /// The latest of the oldest-per-stream timestamps.
    pub open spec fn inf_spec(&self) -> u64 {
        seq_max(self.fronts())
    }

    /// The earliest of the newest-per-stream timestamps.
    pub open spec fn sup_spec(&self) -> u64 {
        seq_min(self.backs())
    }

    /// Total number of buffered messages.
    pub open spec fn total_len(&self) -> int {
        total_of(self.buffers_spec())
    }

    /// The settings and keys that never change after construction.
    pub open spec fn same_shape(&self, other: &Self) -> bool {
        &&& self.num_keys() == other.num_keys()
        &&& (forall|i: int| 0 <= i < self.num_keys() ==> self.key_at(i) == other.key_at(i))
        &&& self.buf_size_spec() == other.buf_size_spec()
        &&& self.window_spec() == other.window_spec()
        &&& self.policy_spec() == other.policy_spec()
    }

    /// Well-formedness: at least one stream, capacity at least two, a
    /// positive window when finite, distinct keys, sorted buffers within
    /// capacity, every buffered message past the commit cursor, and a
    /// well-formed detector when one is attached.
    pub open spec fn wf(&self) -> bool {
        &&& self.num_keys() > 0
        &&& self.buf_size_spec() >= 2
        &&& (self.window_spec() matches Some(w) ==> w > 0)
        &&& (forall|i: int, j: int|
            0 <= i < j < self.num_keys() ==> self.key_at(i) != self.key_at(j))
        &&& (forall|i: int| 0 <= i < self.num_keys() ==> self.buf_at(i).wf())
        &&& (forall|i: int|
            0 <= i < self.num_keys() ==> self.buf_at(i)@.len() <= self.buf_size_spec())
        &&& (self.commit_spec() matches Some(c) ==> forall|i: int, k: int|
            0 <= i < self.num_keys() && 0 <= k < self.buf_at(i)@.len() ==> self.buf_at(
                i,
            )@[k].ts() > c)
        &&& (self.detector_spec() matches Some(d) ==> d.wf())
    }

    /// Creates a state for the given keys.  Duplicate keys (by view) after
    /// the first occurrence are ignored, so each stream has one buffer.
    pub fn new(
        keys: Vec<K>,
        buf_size: usize,
        window_size: Option<u64>,
        drop_policy: DropPolicy,
        start_time: Option<u64>,
        staleness_detector: Option<StalenessDetector<K, T>>,
    ) -> (r: Self)
        requires
            keys@.len() > 0,
            buf_size >= 2,
            window_size matches Some(w) ==> w > 0,
            staleness_detector matches Some(d) ==> d.wf(),
        ensures
            r.wf(),
            r.num_keys() > 0,
            Seq::new(r.num_keys() as nat, |i: int| r.key_at(i)) == dedup_views::<K>(
                keys@.map_values(|k: K| k@),
            ),
            forall|i: int| 0 <= i < r.num_keys() ==> #[trigger] r.buf_at(i)@.len() == 0,
            forall|i: int| 0 <= i < r.num_keys() ==> #[trigger] r.buf_at(i).last_ts_spec() is None,
            r.commit_spec() == start_time,
            r.buf_size_spec() == buf_size,
            r.window_spec() == window_size,
            r.policy_spec() == drop_policy,
            r.detector_spec() == staleness_detector,
    {
        let ghost orig_keys = keys@;
        let ghost views = keys@.map_values(|k: K| k@);
        let mut keys = keys;
        let mut buffers: Vec<(K, Buffer<T>)> = Vec::new();
        let total = keys.len();
        let mut i: usize = 0;
        while i < total
            invariant
                total == orig_keys.len(),
                views == orig_keys.map_values(|k: K| k@),
                i <= total,
                keys@ == orig_keys.skip(i as int),
                buffers@.map_values(|kb: (K, Buffer<T>)| kb.0@) == dedup_views::<K>(
                    views.take(i as int),
                ),
                forall|b: int, c: int|
                    0 <= b < c < buffers@.len() ==> buffers@[b].0@ != buffers@[c].0@,
                forall|b: int|
                    0 <= b < buffers@.len() ==> buffers@[b].1.wf() && buffers@[b].1@.len() == 0
                        && buffers@[b].1.last_ts_spec() is None,
                i > 0 ==> buffers@.len() > 0,
            decreases total - i,
        {
            let ghost pre_keys = keys@;
            let k = keys.remove(0);
            proof {
                assert(keys@ =~= orig_keys.skip(i + 1));
                assert(k == orig_keys[i as int]);
                assert(k@ == views[i as int]);
            }
            let mut found = false;
            let n = buffers.len();
            let mut j: usize = 0;
            while j < n
                invariant
                    n == buffers@.len(),
                    j <= n,
                    found == exists|b: int| 0 <= b < j && buffers@[b].0@ == k@,
                decreases n - j,
            {
                if buffers[j].0.key_eq(&k) {
                    found = true;
                    proof {
                        assert(buffers@[j as int].0@ == k@);
                    }
                }
                j = j + 1;
            }
            proof {
                let key_views = buffers@.map_values(|kb: (K, Buffer<T>)| kb.0@);
                if found {
                    let b = choose|b: int| 0 <= b < n && buffers@[b].0@ == k@;
                    assert(key_views[b] == k@);
                    assert(key_views.contains(k@));
                } else if key_views.contains(k@) {
                    let idx = choose|idx: int|
                        0 <= idx < key_views.len() && key_views[idx] == k@;
                    assert(buffers@[idx].0@ == k@);
                    assert(false);
                }
                assert(found == key_views.contains(k@));
                assert(views.take(i + 1).drop_last() =~= views.take(i as int));
                assert(views.take(i + 1).last() == views[i as int]);
            }
            if !found {
                buffers.push((k, Buffer::with_capacity(buf_size)));
                proof {
                    assert(buffers@.map_values(|kb: (K, Buffer<T>)| kb.0@) =~= dedup_views::<K>(
                        views.take(i + 1),
                    ));
                }
            }
            i = i + 1;
        }
        proof {
            assert(views.take(total as int) =~= views);
        }
        State {
            buffers,
            commit_ts: start_time,
            buf_size,
            window_size,
            drop_policy,
            staleness_detector,
        }
    }
}

impl<K: Key, T: WithTimestamp> State<K, T> {
    /// The position of `key` among the registered keys, if any.
    fn key_index_of(&self, key: &K) -> (r: Option<usize>)
        ensures
            match r {
                Some(i) => 0 <= i < self.num_keys() && self.key_at(i as int) == key@,
                None => forall|j: int| 0 <= j < self.num_keys() ==> self.key_at(j) != key@,
            },
    {
        let n = self.buffers.len();
        let mut j: usize = 0;
        while j < n
            invariant
                n == self.num_keys(),
                j <= n,
                forall|b: int| 0 <= b < j ==> self.key_at(b) != key@,
            decreases n - j,
        {
            if self.buffers[j].0.key_eq(key) {
                return Some(j);
            }
            j = j + 1;
        }
        None
    }

    /// The commit cursor.
    pub fn commit_timestamp(&self) -> (r: Option<u64>)
        ensures
            r == self.commit_spec(),
    {
        self.commit_ts
    }

    /// Number of registered streams.
    pub fn key_count(&self) -> (n: usize)
        ensures
            n == self.num_keys(),
    {
        self.buffers.len()
    }

    /// Number of buffered messages for `key`; zero for an unknown key.
    pub fn buffer_len(&self, key: &K) -> (n: usize)
        ensures
            (exists|i: int| 0 <= i < self.num_keys() && self.key_at(i) == key@)
                ==> exists|i: int|
                    0 <= i < self.num_keys() && self.key_at(i) == key@ && n == self.buf_at(
                        i,
                    )@.len(),
            (forall|i: int| 0 <= i < self.num_keys() ==> self.key_at(i) != key@) ==> n == 0,
    {
        match self.key_index_of(key) {
            Some(i) => self.buffers[i].1.len(),
            None => 0,
        }
    }

    /// Whether every buffer is at capacity.
    pub fn is_full(&self) -> (r: bool)
        ensures
            r == self.full_spec(),
    {
        let n = self.buffers.len();
        let mut j: usize = 0;
        while j < n
            invariant
                n == self.num_keys(),
                j <= n,
                forall|b: int|
                    0 <= b < j ==> #[trigger] self.buf_at(b)@.len() >= self.buf_size_spec(),
            decreases n - j,
        {
            if self.buffers[j].1.len() < self.buf_size {
                proof {
                    assert(self.buf_at(j as int)@.len() < self.buf_size_spec());
                }
                return false;
            }
            j = j + 1;
        }
        true
    }

    /// Whether every buffer holds at least two messages, so the matcher's
    /// spread check is meaningful.
    pub fn is_ready(&self) -> (r: bool)
        ensures
            r == self.ready_spec(),
    {
        let n = self.buffers.len();
        let mut j: usize = 0;
        while j < n
            invariant
                n == self.num_keys(),
                j <= n,
                forall|b: int| 0 <= b < j ==> #[trigger] self.buf_at(b)@.len() >= 2,
            decreases n - j,
        {
            if self.buffers[j].1.len() < 2 {
                proof {
                    assert(self.buf_at(j as int)@.len() < 2);
                }
                return false;
            }
            j = j + 1;
        }
        true
    }

    /// Whether some buffer is empty (in which case no group can be formed;
    /// the asymmetric name is deliberate).
    pub fn is_empty(&self) -> (r: bool)
        ensures
            r == self.some_empty_spec(),
    {
        let n = self.buffers.len();
        let mut j: usize = 0;
        while j < n
            invariant
                n == self.num_keys(),
                j <= n,
                forall|b: int| 0 <= b < j ==> #[trigger] self.buf_at(b)@.len() != 0,
            decreases n - j,
        {
            if self.buffers[j].1.is_empty() {
                proof {
                    assert(self.buf_at(j as int)@.len() == 0);
                }
                return true;
            }
            j = j + 1;
        }
        false
    }

    /// Whether every buffer holds exactly one message.
    pub fn all_one(&self) -> (r: bool)
        ensures
            r == self.all_one_spec(),
    {
        let n = self.buffers.len();
        let mut j: usize = 0;
        while j < n
            invariant
                n == self.num_keys(),
                j <= n,
                forall|b: int| 0 <= b < j ==> #[trigger] self.buf_at(b)@.len() == 1,
            decreases n - j,
        {
            if self.buffers[j].1.len() != 1 {
                proof {
                    assert(self.buf_at(j as int)@.len() != 1);
                }
                return false;
            }
            j = j + 1;
        }
        true
    }

    /// The latest front timestamp across the streams — the newest of the
    /// oldest-per-stream — with a key that attains it.  `None` when some
    /// buffer is empty.
    pub fn inf_timestamp(&self) -> (r: Option<(K, u64)>)
        requires
            self.wf(),
        ensures
            match r {
                None => !self.all_nonempty(),
                Some((k, t)) => {
                    &&& self.all_nonempty()
                    &&& t == self.inf_spec()
                    &&& exists|i: int|
                        0 <= i < self.num_keys() && self.key_at(i) == k@ && self.buf_at(
                            i,
                        )@[0].ts() == t
                },
            },
    {
        if self.is_empty() {
            return None;
        }
        let n = self.buffers.len();
        let mut best: u64 = 0;
        let mut best_idx: usize = 0;
        let mut j: usize = 0;
        while j < n
            invariant
                self.wf(),
                self.all_nonempty(),
                n == self.num_keys(),
                j <= n,
                j > 0 ==> best == seq_max(self.fronts().take(j as int)),
                j > 0 ==> best_idx < j && self.buf_at(best_idx as int)@[0].ts() == best,
                j == 0 ==> best == 0 && best_idx == 0,
            decreases n - j,
        {
            let t = match self.buffers[j].1.front() {
                Some(m) => m.timestamp(),
                None => 0,  // unreachable: all buffers are non-empty
            };
            proof {
                assert(t == self.fronts()[j as int]);
                assert(self.fronts().take(j + 1).drop_last() =~= self.fronts().take(j as int));
                assert(self.fronts().take(j + 1).last() == self.fronts()[j as int]);
            }
            if j == 0 || t >= best {
                best = t;
                best_idx = j;
            }
            proof {
                if j == 0 {
                    assert(self.fronts().take(0) =~= Seq::<u64>::empty());
                    assert(seq_max(Seq::<u64>::empty()) == 0);
                }
                assert(best == seq_max(self.fronts().take(j + 1)));
            }
            j = j + 1;
        }
        proof {
            assert(self.fronts().take(n as int) =~= self.fronts());
        }
        let k = self.buffers[best_idx].0.key_clone();
        proof {
            assert(self.key_at(best_idx as int) == k@);
            assert(self.buf_at(best_idx as int)@[0].ts() == best);
        }
        Some((k, best))
    }

    /// The earliest back timestamp across the streams — the oldest of the
    /// newest-per-stream — with a key that attains it.  `None` when some
    /// buffer is empty.
    pub fn sup_timestamp(&self) -> (r: Option<(K, u64)>)
        requires
            self.wf(),
        ensures
            match r {
                None => !self.all_nonempty(),
                Some((k, t)) => {
                    &&& self.all_nonempty()
                    &&& t == self.sup_spec()
                    &&& exists|i: int|
                        0 <= i < self.num_keys() && self.key_at(i) == k@ && self.buf_at(
                            i,
                        )@.last().ts() == t
                },
            },
    {
        if self.is_empty() {
            return None;
        }
        let n = self.buffers.len();
        let mut best: u64 = u64::MAX;
        let mut best_idx: usize = 0;
        let mut j: usize = 0;
        while j < n
            invariant
                self.wf(),
                self.all_nonempty(),
                n == self.num_keys(),
                j <= n,
                j > 0 ==> best == seq_min(self.backs().take(j as int)),
                j > 0 ==> best_idx < j && self.buf_at(best_idx as int)@.last().ts() == best,
                j == 0 ==> best == u64::MAX && best_idx == 0,
            decreases n - j,
        {
            let t = match self.buffers[j].1.back() {
                Some(m) => m.timestamp(),
                None => u64::MAX,  // unreachable: all buffers are non-empty
            };
            proof {
                assert(t == self.backs()[j as int]);
                assert(self.backs().take(j + 1).drop_last() =~= self.backs().take(j as int));
                assert(self.backs().take(j + 1).last() == self.backs()[j as int]);
            }
            if j == 0 || t < best {
                best = t;
                best_idx = j;
            }
            proof {
                if j == 0 {
                    assert(self.backs().take(0) =~= Seq::<u64>::empty());
                    assert(seq_min(Seq::<u64>::empty()) == u64::MAX);
                }
                assert(best == seq_min(self.backs().take(j + 1)));
            }
            j = j + 1;
        }
        proof {
            assert(self.backs().take(n as int) =~= self.backs());
        }
        let k = self.buffers[best_idx].0.key_clone();
        proof {
            assert(self.key_at(best_idx as int) == k@);
            assert(self.buf_at(best_idx as int)@.last().ts() == best);
        }
        Some((k, best))
    }

    /// The least front timestamp among the non-empty buffers, with a key
    /// that attains it.  `None` only when every buffer is empty.
    pub fn min_timestamp(&self) -> (r: Option<(K, u64)>)
        requires
            self.wf(),
        ensures
            match r {
                None => forall|i: int|
                    0 <= i < self.num_keys() ==> #[trigger] self.buf_at(i)@.len() == 0,
                Some((k, t)) => {
                    &&& Some(t) == min_front_of(self.buffers_spec())
                    &&& exists|i: int|
                        0 <= i < self.num_keys() && self.key_at(i) == k@ && self.buf_at(
                            i,
                        )@.len() > 0 && self.buf_at(i)@[0].ts() == t
                    &&& forall|i: int|
                        0 <= i < self.num_keys() && #[trigger] self.buf_at(i)@.len() > 0
                            ==> self.buf_at(i)@[0].ts() >= t
                },
            },
    {
        let n = self.buffers.len();
        let mut found = false;
        let mut best: u64 = u64::MAX;
        let mut best_idx: usize = 0;
        let mut j: usize = 0;
        while j < n
            invariant
                self.wf(),
                n == self.num_keys(),
                j <= n,
                !found ==> forall|b: int| 0 <= b < j ==> #[trigger] self.buf_at(b)@.len() == 0,
                found ==> best_idx < j && self.buf_at(best_idx as int)@.len() > 0 && self.buf_at(
                    best_idx as int,
                )@[0].ts() == best,
                found ==> forall|b: int|
                    0 <= b < j && #[trigger] self.buf_at(b)@.len() > 0 ==> self.buf_at(
                        b,
                    )@[0].ts() >= best,
            decreases n - j,
        {
            match self.buffers[j].1.front() {
                Some(m) => {
                    let t = m.timestamp();
                    if !found || t < best {
                        found = true;
                        best = t;
                        best_idx = j;
                    }
                },
                None => {},
            }
            j = j + 1;
        }
        proof {
            lemma_min_front_of(self.buffers_spec());
        }
        if found {
            let k = self.buffers[best_idx].0.key_clone();
            proof {
                assert(self.key_at(best_idx as int) == k@);
                match min_front_of(self.buffers_spec()) {
                    Some(q) => {
                        let w = choose|i: int|
                            0 <= i < self.num_keys() && #[trigger] self.buffers_spec()[
                                i
                            ].1@.len() > 0 && self.buffers_spec()[i].1@[0].ts() == q;
                        assert(self.buf_at(w)@.len() > 0);
                        assert(best <= q && q <= best);
                    },
                    None => {
                        assert(self.buf_at(best_idx as int)@.len() == 0);
                        assert(false);
                    },
                }
            }
            Some((k, best))
        } else {
            None
        }
    }

    /// A pacing snapshot: the keys whose buffers still have room, in
    /// registration order, and the commit cursor.
    pub fn feedback(&self) -> (r: Feedback<K>)
        ensures
            r.commit_timestamp == self.commit_spec(),
            r.accepted_max_timestamp is None,
            r.accepted_keys@.map_values(|k: K| k@) == accepted_views(
                self.buffers_spec(),
                self.buf_size_spec(),
            ),
    {
        let n = self.buffers.len();
        let mut accepted_keys: Vec<K> = Vec::new();
        let mut j: usize = 0;
        while j < n
            invariant
                n == self.num_keys(),
                j <= n,
                accepted_keys@.map_values(|k: K| k@) == accepted_views(
                    self.buffers_spec().take(j as int),
                    self.buf_size_spec(),
                ),
            decreases n - j,
        {
            proof {
                assert(self.buffers_spec().take(j + 1).drop_last() =~= self.buffers_spec().take(
                    j as int,
                ));
                assert(self.buffers_spec().take(j + 1).last() == self.buffers_spec()[j as int]);
            }
            if self.buffers[j].1.len() < self.buf_size {
                let k = self.buffers[j].0.key_clone();
                accepted_keys.push(k);
                proof {
                    assert(accepted_keys@.map_values(|k: K| k@) =~= accepted_views(
                        self.buffers_spec().take(j + 1),
                        self.buf_size_spec(),
                    ));
                }
            }
            j = j + 1;
        }
        proof {
            assert(self.buffers_spec().take(n as int) =~= self.buffers_spec());
        }
        Feedback {
            accepted_keys,
            commit_timestamp: self.commit_ts,
            accepted_max_timestamp: None,
        }
    }
}

/// Everything `push` guarantees about how the state changed, by result.
pub open spec fn push_post<K: Key, T: WithTimestamp>(
    pre: State<K, T>,
    post: State<K, T>,
    key: K,
    item: T,
    now: u64,
    r: Result<(), PushError<T>>,
) -> bool {
    match r {
        Ok(()) => {
    &&& !pre.is_late(item.ts())
    &&& exists|i: int|
        {
            &&& 0 <= i < pre.num_keys()
            &&& pre.key_at(i) == key@
            &&& (pre.buf_at(i).last_ts_spec() matches Some(l) ==> item.ts()
                > l)
            &&& post.buf_at(i)@ == pre.trimmed_buf(i).push(item)
            &&& post.buf_at(i).last_ts_spec() == Some(item.ts())
            &&& (forall|j: int|
                0 <= j < pre.num_keys() && j != i ==> post.buf_at(j)
                    == pre.buf_at(j))
        }
    &&& registers_staleness(
        pre.detector_spec(),
        post.detector_spec(),
        key,
        item,
        pre.window_spec(),
        now,
    )
        },
        Err(e) => match e {
    PushError::LateMessage(m) => {
        &&& m == item
        &&& post == pre
        &&& pre.is_late(item.ts())
    },
    PushError::UnknownKey(m) => {
        &&& m == item
        &&& post == pre
        &&& !pre.is_late(item.ts())
        &&& (forall|j: int|
            0 <= j < pre.num_keys() ==> pre.key_at(j) != key@)
    },
    PushError::BufferFull(m) => {
        &&& m == item
        &&& post == pre
        &&& !pre.is_late(item.ts())
        &&& pre.policy_spec() is RejectNew
        &&& exists|i: int|
            0 <= i < pre.num_keys() && pre.key_at(i) == key@ && pre.buf_at(i)@.len() >= pre.buf_size_spec()
    },
    PushError::OutOfOrder(m) => {
        &&& m == item
        &&& !pre.is_late(item.ts())
        &&& exists|i: int|
            {
                &&& 0 <= i < pre.num_keys()
                &&& pre.key_at(i) == key@
                &&& !(pre.buf_at(i)@.len() >= pre.buf_size_spec() && pre.policy_spec()
                    is RejectNew)
                &&& (pre.buf_at(i).last_ts_spec() matches Some(l)
                    && item.ts() <= l)
                &&& post.buf_at(i)@ == pre.trimmed_buf(i)
                &&& post.buf_at(i).last_ts_spec() == pre.buf_at(
                    i,
                ).last_ts_spec()
                &&& (forall|j: int|
                    0 <= j < pre.num_keys() && j != i ==> post.buf_at(j) == pre.buf_at(j))
            }
        &&& registers_staleness(
            pre.detector_spec(),
            post.detector_spec(),
            key,
            item,
            pre.window_spec(),
            now,
        )
    },
    PushError::Timeout(_) => false,
        },
    }
}

impl<K: Key, T: WithTimestamp> State<K, T> {
    /// Whether a message stamped `item_ts` is late: at or before the commit
    /// cursor.
    pub open spec fn is_late(&self, item_ts: u64) -> bool {
        match self.commit_spec() {
            Some(c) => item_ts <= c,
            None => false,
        }
    }

    /// Buffer `i` after the capacity step: its oldest message is evicted
    /// when the buffer is at capacity under `DropOldest`.
    pub open spec fn trimmed_buf(&self, i: int) -> Seq<T> {
        if self.buf_at(i)@.len() >= self.buf_size_spec() && self.policy_spec() is DropOldest {
            self.buf_at(i)@.skip(1)
        } else {
            self.buf_at(i)@
        }
    }

    /// Inserts a message into the stream identified by `key`.
    ///
    /// A late message (at or before the commit cursor) is rejected first;
    /// then an unknown key; then, at capacity, the message is rejected under
    /// `RejectNew` or the oldest message is evicted under `DropOldest`.  An
    /// accepted or out-of-order message is registered with the staleness
    /// detector when one is attached (`now` is the caller's clock reading,
    /// unused otherwise).  Finally a message that does not advance the
    /// stream's watermark is rejected as out of order — after the eviction
    /// and registration steps, exactly like a push that succeeds.
    pub fn push(&mut self, key: K, item: T, now: u64) -> (r: Result<(), PushError<T>>)
        requires
            old(self).wf(),
        ensures
            final(self).wf(),
            final(self).same_shape(old(self)),
            final(self).commit_spec() == old(self).commit_spec(),
            push_post(*old(self), *final(self), key, item, now, r),
    {
        let timestamp = item.timestamp();

        // 1. reject messages at or before the commit cursor
        match self.commit_ts {
            Some(c) if c >= timestamp => {
                return Err(PushError::LateMessage(item));
            },
            _ => {},
        }

        // 2. reject unknown keys
        let idx = match self.key_index_of(&key) {
            Some(i) => i,
            None => {
                return Err(PushError::UnknownKey(item));
            },
        };

        // 3. capacity: reject, or evict the oldest
        let ghost s0 = *self;
        if self.buffers[idx].1.len() >= self.buf_size {
            match self.drop_policy {
                DropPolicy::RejectNew => {
                    return Err(PushError::BufferFull(item));
                },
                DropPolicy::DropOldest => {
                    let ghost pre = self.buffers@;
                    let (k0, mut b) = self.buffers.remove(idx);
                    b.pop_front();
                    self.buffers.insert(idx, (k0, b));
                    proof {
                        assert(self.buffers@.len() == pre.len());
                        assert(self.buffers@[idx as int].0 == pre[idx as int].0);
                        assert(forall|j: int|
                            0 <= j < pre.len() && j != idx ==> self.buffers@[j] == pre[j]);
                    }
                },
            }
        }
        proof {
            assert(forall|j: int|
                0 <= j < s0.num_keys() && j != idx ==> self.buf_at(j) == s0.buf_at(j));
            assert(forall|j: int| 0 <= j < s0.num_keys() ==> self.key_at(j) == s0.key_at(j));
            assert(self.buf_at(idx as int)@ == s0.trimmed_buf(idx as int));
            assert(self.buf_at(idx as int).last_ts_spec() == s0.buf_at(idx as int).last_ts_spec());
        }

        // 4. register with the staleness detector, if attached
        let staleness_timeout = match item.timeout() {
            Some(t) => t,
            None => match self.window_size {
                Some(w) => w,
                None => 60_000_000_000,
            },
        };
        let has_detector = self.staleness_detector.is_some();
        if has_detector {
            let k2 = key.key_clone();
            let m2 = item.dup();
            let ghost gk2 = k2;
            let ghost gm2 = m2;
            match &mut self.staleness_detector {
                Some(det) => {
                    det.add_message(k2, m2, staleness_timeout, now);
                },
                None => {
                    // not reached: a detector is attached
                },
            }
            proof {
                let a = s0.detector_spec()->0;
                let b = self.detector_spec()->0;
                assert(gk2@ == key@);
                assert(staleness_timeout == staleness_timeout_of(
                    item.spec_timeout(),
                    s0.window_spec(),
                ));
                assert(detector_add_post(a, b, gk2, gm2, staleness_timeout, now));
                assert(registers_staleness(
                    s0.detector_spec(),
                    self.detector_spec(),
                    key,
                    item,
                    s0.window_spec(),
                    now,
                ));
                assert(b.wf());
            }
        }
        proof {
            assert(registers_staleness(
                s0.detector_spec(),
                self.detector_spec(),
                key,
                item,
                s0.window_spec(),
                now,
            ));
        }

        // 5. append, enforcing the watermark
        let ghost pre2 = self.buffers@;
        let (k0, mut b) = self.buffers.remove(idx);
        let res = b.try_push(item);
        self.buffers.insert(idx, (k0, b));
        proof {
            assert(self.buffers@.len() == pre2.len());
            assert(self.buffers@[idx as int].0 == pre2[idx as int].0);
            assert(forall|j: int|
                0 <= j < pre2.len() && j != idx ==> self.buffers@[j] == pre2[j]);
            assert(forall|j: int|
                0 <= j < s0.num_keys() && j != idx ==> self.buf_at(j) == s0.buf_at(j));
            assert(forall|j: int| 0 <= j < s0.num_keys() ==> self.key_at(j) == s0.key_at(j));
            assert(self.commit_spec() == s0.commit_spec());
            assert forall|j: int|
                0 <= j < self.num_keys() implies self.buf_at(j).wf() && self.buf_at(j)@.len()
                <= self.buf_size_spec() by {
                if j != idx {
                    assert(self.buf_at(j) == s0.buf_at(j));
                }
            }
            match self.commit_spec() {
                Some(c) => {
                    assert forall|i: int, k: int|
                        0 <= i < self.num_keys() && 0 <= k < self.buf_at(i)@.len() implies
                        self.buf_at(i)@[k].ts() > c by {
                        if i == idx {
                            let t0 = s0.buf_at(idx as int)@;
                            let tr = s0.trimmed_buf(idx as int);
                            if k < tr.len() {
                                assert(self.buf_at(i)@[k] == tr[k]);
                                if t0.len() >= s0.buf_size_spec() && s0.policy_spec()
                                    is DropOldest {
                                    assert(tr[k] == t0[k + 1]);
                                } else {
                                    assert(tr[k] == t0[k]);
                                }
                            }
                        } else {
                            assert(self.buf_at(i) == s0.buf_at(i));
                        }
                    }
                },
                None => {},
            }
        }
        proof {
            assert(self.num_keys() > 0);
            assert(self.buf_size_spec() >= 2);
            assert(self.window_spec() matches Some(w) ==> w > 0);
            assert(s0.wf());
            assert forall|i: int, j: int|
                0 <= i < j < self.num_keys() implies self.key_at(i) != self.key_at(j) by {
                assert(self.key_at(i) == s0.key_at(i));
                assert(self.key_at(j) == s0.key_at(j));
            }
            assert(forall|i: int| 0 <= i < self.num_keys() ==> self.buf_at(i).wf());
            assert(forall|i: int|
                0 <= i < self.num_keys() ==> self.buf_at(i)@.len() <= self.buf_size_spec());
            assert(self.detector_spec() matches Some(d) ==> d.wf());
            assert(self.wf());
        }
        match res {
            Ok(()) => Ok(()),
            Err(it) => Err(PushError::OutOfOrder(it)),
        }
    }
}

/// Summing buffer lengths respects pointwise bounds.
proof fn lemma_total_pointwise<K, T>(a: Seq<(K, Buffer<T>)>, b: Seq<(K, Buffer<T>)>)
    requires
        a.len() == b.len(),
        forall|i: int| 0 <= i < a.len() ==> a[i].1@.len() <= b[i].1@.len(),
    ensures
        total_of(a) <= total_of(b),
    decreases a.len(),
{
    if a.len() > 0 {
        assert(forall|i: int|
            0 <= i < a.drop_last().len() ==> a.drop_last()[i].1@.len()
                <= b.drop_last()[i].1@.len());
        lemma_total_pointwise(a.drop_last(), b.drop_last());
    }
}

/// Replacing one buffer changes the total by the difference in lengths.
proof fn lemma_total_update<K, T>(s: Seq<(K, Buffer<T>)>, i: int, kb: (K, Buffer<T>))
    requires
        0 <= i < s.len(),
    ensures
        total_of(s.update(i, kb)) == total_of(s) - s[i].1@.len() + kb.1@.len(),
    decreases s.len(),
{
    if i == s.len() - 1 {
        assert(s.update(i, kb).drop_last() =~= s.drop_last());
        assert(s.update(i, kb).last() == kb);
    } else {
        assert(s.update(i, kb).drop_last() =~= s.drop_last().update(i, kb));
        assert(s.update(i, kb).last() == s.last());
        lemma_total_update(s.drop_last(), i, kb);
    }
}

impl<K: Key, T: WithTimestamp> State<K, T> {
    /// Removes the message with the least timestamp among all buffer fronts;
    /// on a tie every buffer whose front attains the minimum is popped.
    /// Returns whether anything was dropped (false only when every buffer is
    /// empty).
    pub fn drop_min(&mut self) -> (r: bool)
        requires
            old(self).wf(),
        ensures
            final(self).wf(),
            final(self).same_shape(old(self)),
            final(self).commit_spec() == old(self).commit_spec(),
            final(self).detector_spec() == old(self).detector_spec(),
            !r ==> *final(self) == *old(self) && (forall|i: int|
                0 <= i < old(self).num_keys() ==> #[trigger] old(self).buf_at(i)@.len() == 0),
            r ==> min_front_of(old(self).buffers_spec()) is Some,
            r ==> (forall|i: int|
                0 <= i < old(self).num_keys() ==> #[trigger] final(self).buf_at(i)@ == (
                if old(self).buf_at(i)@.len() > 0 && old(self).buf_at(i)@[0].ts() == min_front_of(
                    old(self).buffers_spec(),
                )->0 {
                    old(self).buf_at(i)@.skip(1)
                } else {
                    old(self).buf_at(i)@
                })),
            r ==> (forall|i: int|
                0 <= i < old(self).num_keys() ==> #[trigger] final(self).buf_at(i).last_ts_spec()
                    == old(self).buf_at(i).last_ts_spec()),
            r ==> final(self).total_len() < old(self).total_len(),
            !r ==> final(self).total_len() == old(self).total_len(),
    {
        let (w, m) = match self.min_timestamp() {
            Some((k, m)) => {
                let ghost wi = choose|i: int|
                    0 <= i < self.num_keys() && self.key_at(i) == k@ && self.buf_at(
                        i,
                    )@.len() > 0 && self.buf_at(i)@[0].ts() == m;
                proof {
                    assert(0 <= wi < self.num_keys() && self.buf_at(wi)@.len() > 0
                        && self.buf_at(wi)@[0].ts() == m);
                }
                (Ghost(wi), m)
            },
            None => {
                return false;
            },
        };
        let ghost s0 = *self;
        let n = self.buffers.len();
        let mut i: usize = 0;
        while i < n
            invariant
                s0 == *old(self),
                s0.wf(),
                0 <= w@ < n,
                s0.buf_at(w@)@.len() > 0,
                s0.buf_at(w@)@[0].ts() == m,
                Some(m) == min_front_of(s0.buffers_spec()),
                n == s0.num_keys(),
                self.num_keys() == s0.num_keys(),
                i <= n,
                self.commit_spec() == s0.commit_spec(),
                self.buf_size_spec() == s0.buf_size_spec(),
                self.window_spec() == s0.window_spec(),
                self.policy_spec() == s0.policy_spec(),
                self.detector_spec() == s0.detector_spec(),
                forall|j: int| 0 <= j < n ==> self.key_at(j) == s0.key_at(j),
                forall|j: int| i <= j < n ==> self.buf_at(j) == s0.buf_at(j),
                forall|j: int|
                    0 <= j < i ==> #[trigger] self.buf_at(j)@ == (
                    if s0.buf_at(j)@.len() > 0 && s0.buf_at(j)@[0].ts() == m {
                        s0.buf_at(j)@.skip(1)
                    } else {
                        s0.buf_at(j)@
                    }),
                forall|j: int|
                    0 <= j < i ==> #[trigger] self.buf_at(j).last_ts_spec() == s0.buf_at(
                        j,
                    ).last_ts_spec(),
                forall|j: int| 0 <= j < i ==> self.buf_at(j).wf(),
            decreases n - i,
        {
            let ghost iter0 = *self;
            let pop_this = match self.buffers[i].1.front() {
                Some(f) => f.timestamp() == m,
                None => false,
            };
            if pop_this {
                let ghost pre = self.buffers@;
                let (k0, mut b) = self.buffers.remove(i);
                proof {
                    assert(b == s0.buf_at(i as int));
                    assert(b.wf());
                }
                b.pop_front();
                self.buffers.insert(i, (k0, b));
                proof {
                    assert(self.buffers@.len() == pre.len());
                    assert(self.buffers@[i as int].0 == pre[i as int].0);
                    assert(forall|j: int|
                        0 <= j < pre.len() && j != i ==> self.buffers@[j] == pre[j]);
                }
            }
            proof {
                if pop_this {
                    assert(self.buf_at(i as int)@ == s0.buf_at(i as int)@.skip(1));
                    assert(self.buf_at(i as int).last_ts_spec() == s0.buf_at(
                        i as int,
                    ).last_ts_spec());
                    assert(s0.buf_at(i as int)@.len() > 0 && s0.buf_at(i as int)@[0].ts() == m);
                } else {
                    assert(self.buf_at(i as int) == s0.buf_at(i as int));
                    assert(!(s0.buf_at(i as int)@.len() > 0 && s0.buf_at(i as int)@[0].ts()
                        == m));
                }
                assert forall|j: int|
                    0 <= j < i + 1 implies #[trigger] self.buf_at(j)@ == (
                if s0.buf_at(j)@.len() > 0 && s0.buf_at(j)@[0].ts() == m {
                    s0.buf_at(j)@.skip(1)
                } else {
                    s0.buf_at(j)@
                }) by {
                    if j < i {
                        assert(self.buf_at(j) == iter0.buf_at(j));
                        assert(iter0.buf_at(j)@ == (if s0.buf_at(j)@.len() > 0 && s0.buf_at(
                            j,
                        )@[0].ts() == m {
                            s0.buf_at(j)@.skip(1)
                        } else {
                            s0.buf_at(j)@
                        }));
                    }
                }
                assert forall|j: int|
                    0 <= j < i + 1 implies #[trigger] self.buf_at(j).last_ts_spec() == s0.buf_at(
                    j,
                ).last_ts_spec() by {
                    if j < i {
                        assert(self.buf_at(j) == iter0.buf_at(j));
                        assert(iter0.buf_at(j).last_ts_spec() == s0.buf_at(j).last_ts_spec());
                    }
                }
                assert forall|j: int| 0 <= j < i + 1 implies #[trigger] self.buf_at(j).wf() by {
                    if j < i {
                        assert(self.buf_at(j) == iter0.buf_at(j));
                        assert(iter0.buf_at(j).wf());
                    }
                }
            }
            i = i + 1;
        }
        proof {
            // the witness buffer's front equals the minimum, so it was popped
            assert(s0.buf_at(w@)@.len() > 0 && s0.buf_at(w@)@[0].ts() == m);
            assert(self.buf_at(w@)@ == s0.buf_at(w@)@.skip(1));
            let mid = s0.buffers_spec().update(w@, self.buffers_spec()[w@]);
            lemma_total_update(s0.buffers_spec(), w@, self.buffers_spec()[w@]);
            assert(total_of(mid) == total_of(s0.buffers_spec()) - 1);
            assert(mid.len() == n);
            assert forall|j: int|
                0 <= j < n implies self.buffers_spec()[j].1@.len() <= mid[j].1@.len() by {
                assert(self.buf_at(j)@ == (if s0.buf_at(j)@.len() > 0 && s0.buf_at(j)@[0].ts()
                    == m {
                    s0.buf_at(j)@.skip(1)
                } else {
                    s0.buf_at(j)@
                }));
                if j != w@ {
                    assert(mid[j] == s0.buffers_spec()[j]);
                }
            }
            lemma_total_pointwise(self.buffers_spec(), mid);
            // well-formedness of the result
            match self.commit_spec() {
                Some(c) => {
                    assert forall|a: int, k: int|
                        0 <= a < self.num_keys() && 0 <= k < self.buf_at(a)@.len() implies
                        self.buf_at(a)@[k].ts() > c by {
                        if s0.buf_at(a)@.len() > 0 && s0.buf_at(a)@[0].ts() == m {
                            assert(self.buf_at(a)@[k] == s0.buf_at(a)@[k + 1]);
                        } else {
                            assert(self.buf_at(a)@[k] == s0.buf_at(a)@[k]);
                        }
                    }
                },
                None => {},
            }
            assert forall|a: int|
                0 <= a < self.num_keys() implies self.buf_at(a)@.len() <= self.buf_size_spec()
                by {
                assert(self.buf_at(a)@ == (if s0.buf_at(a)@.len() > 0 && s0.buf_at(a)@[0].ts()
                    == m {
                    s0.buf_at(a)@.skip(1)
                } else {
                    s0.buf_at(a)@
                }));
                assert(self.buf_at(a)@.len() <= s0.buf_at(a)@.len());
            }
            assert forall|a: int, b: int|
                0 <= a < b < self.num_keys() implies self.key_at(a) != self.key_at(b) by {
                assert(self.key_at(a) == s0.key_at(a));
                assert(self.key_at(b) == s0.key_at(b));
            }
        }
        true
    }
}

/// One buffer's front-expiration sweep: `post` is `pre` with a fully
/// expired prefix removed, stopping at the first surviving message.
pub open spec fn expired_rel<T: WithTimestamp>(pre: Buffer<T>, post: Buffer<T>, reference: u64) -> bool {
    exists|c: int|
        {
            &&& 0 <= c <= pre@.len()
            &&& post@ == pre@.skip(c)
            &&& (forall|k: int| 0 <= k < c ==> is_expired(pre@[k], reference))
            &&& (c < pre@.len() ==> !is_expired(pre@[c], reference))
            &&& post.last_ts_spec() == pre.last_ts_spec()
        }
}





/// How a staleness sweep may change one buffer: a prefix is removed, the
/// watermark is kept, every removed message's timestamp matches a drained
/// pair for this key, and if some drained pair matches the old front's
/// timestamp then at least the front was removed.
pub open spec fn staleness_pruned<K: Key, T: WithTimestamp>(
    pre: Buffer<T>,
    post: Buffer<T>,
    kv: K::V,
    drained: Seq<(K, T)>,
) -> bool {
    exists|c: int|
        {
            &&& 0 <= c <= pre@.len()
            &&& post@ == pre@.skip(c)
            &&& post.last_ts_spec() == pre.last_ts_spec()
            &&& (forall|k: int|
                0 <= k < c ==> exists|p: int|
                    0 <= p < drained.len() && (#[trigger] drained[p]).0@ == kv
                        && drained[p].1.ts() == (#[trigger] pre@[k]).ts())
            &&& ((pre@.len() > 0 && exists|p: int|
                0 <= p < drained.len() && (#[trigger] drained[p]).0@ == kv && drained[p].1.ts()
                    == pre@[0].ts()) ==> c >= 1)
        }
}

/// Extending the drained sequence by a pair for another key changes
/// nothing for this buffer.
proof fn lemma_pruned_extend_other<K: Key, T: WithTimestamp>(
    pre: Buffer<T>,
    post: Buffer<T>,
    kv: K::V,
    drained: Seq<(K, T)>,
    e: int,
)
    requires
        0 <= e < drained.len(),
        staleness_pruned::<K, T>(pre, post, kv, drained.take(e)),
        drained[e].0@ != kv,
    ensures
        staleness_pruned::<K, T>(pre, post, kv, drained.take(e + 1)),
{
    let c = choose|c: int|
        {
            &&& 0 <= c <= pre@.len()
            &&& post@ == pre@.skip(c)
            &&& post.last_ts_spec() == pre.last_ts_spec()
            &&& (forall|k: int|
                0 <= k < c ==> exists|p: int|
                    0 <= p < drained.take(e).len() && (#[trigger] drained.take(e)[p]).0@ == kv
                        && drained.take(e)[p].1.ts() == (#[trigger] pre@[k]).ts())
            &&& ((pre@.len() > 0 && exists|p: int|
                0 <= p < drained.take(e).len() && (#[trigger] drained.take(e)[p]).0@ == kv
                    && drained.take(e)[p].1.ts() == pre@[0].ts()) ==> c >= 1)
        };
    assert forall|k: int|
        0 <= k < c implies exists|p: int|
        0 <= p < drained.take(e + 1).len() && (#[trigger] drained.take(e + 1)[p]).0@ == kv
            && drained.take(e + 1)[p].1.ts() == (#[trigger] pre@[k]).ts() by {
        let p = choose|p: int|
            0 <= p < drained.take(e).len() && (#[trigger] drained.take(e)[p]).0@ == kv
                && drained.take(e)[p].1.ts() == pre@[k].ts();
        assert(drained.take(e + 1)[p] == drained.take(e)[p]);
    }
    if pre@.len() > 0 && exists|p: int|
        0 <= p < drained.take(e + 1).len() && (#[trigger] drained.take(e + 1)[p]).0@ == kv
            && drained.take(e + 1)[p].1.ts() == pre@[0].ts() {
        let p = choose|p: int|
            0 <= p < drained.take(e + 1).len() && (#[trigger] drained.take(e + 1)[p]).0@ == kv
                && drained.take(e + 1)[p].1.ts() == pre@[0].ts();
        if p == e {
            assert(drained.take(e + 1)[p] == drained[e]);
            assert(false);
        } else {
            assert(drained.take(e)[p] == drained.take(e + 1)[p]);
            assert(c >= 1);
        }
    }
}

/// Extending the drained sequence by a pair that does not match this
/// buffer's (still present) front changes nothing for it.
proof fn lemma_pruned_extend_nomatch<K: Key, T: WithTimestamp>(
    pre: Buffer<T>,
    post: Buffer<T>,
    kv: K::V,
    drained: Seq<(K, T)>,
    e: int,
)
    requires
        0 <= e < drained.len(),
        staleness_pruned::<K, T>(pre, post, kv, drained.take(e)),
        pre@.len() > 0 ==> (post@.len() < pre@.len() || drained[e].1.ts() != pre@[0].ts()),
    ensures
        staleness_pruned::<K, T>(pre, post, kv, drained.take(e + 1)),
{
    let c = choose|c: int|
        {
            &&& 0 <= c <= pre@.len()
            &&& post@ == pre@.skip(c)
            &&& post.last_ts_spec() == pre.last_ts_spec()
            &&& (forall|k: int|
                0 <= k < c ==> exists|p: int|
                    0 <= p < drained.take(e).len() && (#[trigger] drained.take(e)[p]).0@ == kv
                        && drained.take(e)[p].1.ts() == (#[trigger] pre@[k]).ts())
            &&& ((pre@.len() > 0 && exists|p: int|
                0 <= p < drained.take(e).len() && (#[trigger] drained.take(e)[p]).0@ == kv
                    && drained.take(e)[p].1.ts() == pre@[0].ts()) ==> c >= 1)
        };
    assert forall|k: int|
        0 <= k < c implies exists|p: int|
        0 <= p < drained.take(e + 1).len() && (#[trigger] drained.take(e + 1)[p]).0@ == kv
            && drained.take(e + 1)[p].1.ts() == (#[trigger] pre@[k]).ts() by {
        let p = choose|p: int|
            0 <= p < drained.take(e).len() && (#[trigger] drained.take(e)[p]).0@ == kv
                && drained.take(e)[p].1.ts() == pre@[k].ts();
        assert(drained.take(e + 1)[p] == drained.take(e)[p]);
    }
    if pre@.len() > 0 && exists|p: int|
        0 <= p < drained.take(e + 1).len() && (#[trigger] drained.take(e + 1)[p]).0@ == kv
            && drained.take(e + 1)[p].1.ts() == pre@[0].ts() {
        let p = choose|p: int|
            0 <= p < drained.take(e + 1).len() && (#[trigger] drained.take(e + 1)[p]).0@ == kv
                && drained.take(e + 1)[p].1.ts() == pre@[0].ts();
        if p == e {
            assert(drained.take(e + 1)[p] == drained[e]);
            assert(post@.len() < pre@.len());
            assert(c >= 1);
        } else {
            assert(drained.take(e)[p] == drained.take(e + 1)[p]);
            assert(c >= 1);
        }
    }
}

/// A pair matching the current front extends the pruning by one pop.
proof fn lemma_pruned_extend_pop<K: Key, T: WithTimestamp>(
    pre: Buffer<T>,
    mid: Buffer<T>,
    post: Buffer<T>,
    kv: K::V,
    drained: Seq<(K, T)>,
    e: int,
)
    requires
        0 <= e < drained.len(),
        staleness_pruned::<K, T>(pre, mid, kv, drained.take(e)),
        mid@.len() > 0,
        post@ == mid@.skip(1),
        post.last_ts_spec() == mid.last_ts_spec(),
        drained[e].0@ == kv,
        drained[e].1.ts() == mid@[0].ts(),
    ensures
        staleness_pruned::<K, T>(pre, post, kv, drained.take(e + 1)),
{
    let c = choose|c: int|
        {
            &&& 0 <= c <= pre@.len()
            &&& mid@ == pre@.skip(c)
            &&& mid.last_ts_spec() == pre.last_ts_spec()
            &&& (forall|k: int|
                0 <= k < c ==> exists|p: int|
                    0 <= p < drained.take(e).len() && (#[trigger] drained.take(e)[p]).0@ == kv
                        && drained.take(e)[p].1.ts() == (#[trigger] pre@[k]).ts())
            &&& ((pre@.len() > 0 && exists|p: int|
                0 <= p < drained.take(e).len() && (#[trigger] drained.take(e)[p]).0@ == kv
                    && drained.take(e)[p].1.ts() == pre@[0].ts()) ==> c >= 1)
        };
    assert(post@ =~= pre@.skip(c + 1));
    assert(mid@[0] == pre@[c]);
    assert forall|k: int|
        0 <= k < c + 1 implies exists|p: int|
        0 <= p < drained.take(e + 1).len() && (#[trigger] drained.take(e + 1)[p]).0@ == kv
            && drained.take(e + 1)[p].1.ts() == (#[trigger] pre@[k]).ts() by {
        if k < c {
            let p = choose|p: int|
                0 <= p < drained.take(e).len() && (#[trigger] drained.take(e)[p]).0@ == kv
                    && drained.take(e)[p].1.ts() == pre@[k].ts();
            assert(drained.take(e + 1)[p] == drained.take(e)[p]);
        } else {
            assert(drained.take(e + 1)[e] == drained[e]);
            assert(drained[e].1.ts() == pre@[c].ts());
        }
    }
    assert({
        &&& 0 <= c + 1 <= pre@.len()
        &&& post@ == pre@.skip(c + 1)
        &&& post.last_ts_spec() == pre.last_ts_spec()
        &&& (forall|k: int|
            0 <= k < c + 1 ==> exists|p: int|
                0 <= p < drained.take(e + 1).len() && (#[trigger] drained.take(e + 1)[p]).0@
                    == kv && drained.take(e + 1)[p].1.ts() == (#[trigger] pre@[k]).ts())
        &&& ((pre@.len() > 0 && exists|p: int|
            0 <= p < drained.take(e + 1).len() && (#[trigger] drained.take(e + 1)[p]).0@ == kv
                && drained.take(e + 1)[p].1.ts() == pre@[0].ts()) ==> c + 1 >= 1)
    });
}

/// How one prune pass may change a buffer: first the expiration sweep
/// against the commit cursor (when one is set), then the staleness sweep
/// against the detector's drained pairs (when one is attached).
pub open spec fn pruned_buffer<K: Key, T: WithTimestamp>(
    pre: Buffer<T>,
    post: Buffer<T>,
    kv: K::V,
    commit: Option<u64>,
    det: Option<StalenessDetector<K, T>>,
    now: u64,
) -> bool {
    exists|bmid: Buffer<T>|
        #![trigger bmid@]
        {
            &&& (match commit {
                Some(c) => expired_rel(pre, bmid, c),
                None => bmid == pre,
            })
            &&& (match det {
                Some(d) => staleness_pruned::<K, T>(bmid, post, kv, d.expired_payload(now)),
                None => post == bmid,
            })
        }
}

/// `post` holds a suffix of `pre`'s messages, with the watermark kept.
pub open spec fn suffix_rel<T: WithTimestamp>(pre: Buffer<T>, post: Buffer<T>) -> bool {
    exists|c: int|
        {
            &&& 0 <= c <= pre@.len()
            &&& post@ == pre@.skip(c)
            &&& post.last_ts_spec() == pre.last_ts_spec()
        }
}

impl<K: Key, T: WithTimestamp> State<K, T> {
    /// Sweeps every buffer's front for messages whose own timeout has
    /// elapsed at `reference_timestamp`, and returns how many were dropped.
    pub fn drop_expired_messages(&mut self, reference_timestamp: u64) -> (r: usize)
        requires
            old(self).wf(),
        ensures
            final(self).wf(),
            final(self).same_shape(old(self)),
            final(self).commit_spec() == old(self).commit_spec(),
            final(self).detector_spec() == old(self).detector_spec(),
            forall|i: int|
                0 <= i < old(self).num_keys() ==> expired_rel(
                    old(self).buf_at(i),
                    final(self).buf_at(i),
                    reference_timestamp,
                ),
            r == crate::staleness::clamp_usize(old(self).total_len() - final(self).total_len()),
    {
        let ghost s0 = *self;
        let n = self.buffers.len();
        let mut acc: usize = 0;
        let mut i: usize = 0;
        while i < n
            invariant
                s0 == *old(self),
                s0.wf(),
                n == s0.num_keys(),
                self.num_keys() == n,
                i <= n,
                self.commit_spec() == s0.commit_spec(),
                self.buf_size_spec() == s0.buf_size_spec(),
                self.window_spec() == s0.window_spec(),
                self.policy_spec() == s0.policy_spec(),
                self.detector_spec() == s0.detector_spec(),
                forall|j: int| 0 <= j < n ==> self.key_at(j) == s0.key_at(j),
                forall|j: int| i <= j < n ==> self.buf_at(j) == s0.buf_at(j),
                forall|j: int|
                    0 <= j < i ==> expired_rel(
                        s0.buf_at(j),
                        #[trigger] self.buf_at(j),
                        reference_timestamp,
                    ),
                forall|j: int| 0 <= j < i ==> #[trigger] self.buf_at(j).wf(),
                forall|j: int|
                    0 <= j < i ==> #[trigger] self.buf_at(j)@.len() <= s0.buf_at(j)@.len(),
                acc == crate::staleness::clamp_usize(
                    total_of(s0.buffers_spec()) - total_of(self.buffers_spec()),
                ),
            decreases n - i,
        {
            let ghost iter0 = *self;
            let ghost pre = self.buffers@;
            let (k0, mut b) = self.buffers.remove(i);
            proof {
                assert(b == s0.buf_at(i as int));
                assert(b.wf());
            }
            let count = b.drop_expired(reference_timestamp);
            self.buffers.insert(i, (k0, b));
            acc = crate::staleness::add_sat_usize(acc, count);
            proof {
                assert(self.buffers@.len() == pre.len());
                assert(self.buffers@[i as int].0 == pre[i as int].0);
                assert(forall|j: int|
                    0 <= j < pre.len() && j != i ==> self.buffers@[j] == pre[j]);
                assert(self.buffers@ =~= pre.update(i as int, self.buffers@[i as int]));
                lemma_total_update(pre, i as int, self.buffers@[i as int]);
                assert(total_of(self.buffers_spec()) == total_of(pre) - count);
                assert(expired_rel(s0.buf_at(i as int), self.buf_at(i as int), reference_timestamp));
                assert forall|j: int|
                    0 <= j < i + 1 implies expired_rel(
                    s0.buf_at(j),
                    #[trigger] self.buf_at(j),
                    reference_timestamp,
                ) by {
                    if j < i {
                        assert(self.buf_at(j) == iter0.buf_at(j));
                        assert(expired_rel(s0.buf_at(j), iter0.buf_at(j), reference_timestamp));
                    }
                }
                assert forall|j: int| 0 <= j < i + 1 implies #[trigger] self.buf_at(j).wf() by {
                    if j < i {
                        assert(self.buf_at(j) == iter0.buf_at(j));
                        assert(iter0.buf_at(j).wf());
                    }
                }
                assert forall|j: int|
                    0 <= j < i + 1 implies #[trigger] self.buf_at(j)@.len() <= s0.buf_at(
                    j,
                )@.len() by {
                    if j < i {
                        assert(self.buf_at(j) == iter0.buf_at(j));
                        assert(iter0.buf_at(j)@.len() <= s0.buf_at(j)@.len());
                    }
                }
            }
            i = i + 1;
        }
        proof {
            match self.commit_spec() {
                Some(c) => {
                    assert forall|a: int, k: int|
                        0 <= a < self.num_keys() && 0 <= k < self.buf_at(a)@.len() implies
                        self.buf_at(a)@[k].ts() > c by {
                        assert(expired_rel(s0.buf_at(a), self.buf_at(a), reference_timestamp));
                        let cc = choose|cc: int|
                            {
                                &&& 0 <= cc <= s0.buf_at(a)@.len()
                                &&& self.buf_at(a)@ == s0.buf_at(a)@.skip(cc)
                                &&& (forall|k2: int|
                                    0 <= k2 < cc ==> is_expired(
                                        s0.buf_at(a)@[k2],
                                        reference_timestamp,
                                    ))
                                &&& (cc < s0.buf_at(a)@.len() ==> !is_expired(
                                    s0.buf_at(a)@[cc],
                                    reference_timestamp,
                                ))
                                &&& self.buf_at(a).last_ts_spec() == s0.buf_at(a).last_ts_spec()
                            };
                        assert(self.buf_at(a)@[k] == s0.buf_at(a)@[k + cc]);
                    }
                },
                None => {},
            }
            assert forall|a: int, b2: int|
                0 <= a < b2 < self.num_keys() implies self.key_at(a) != self.key_at(b2) by {
                assert(self.key_at(a) == s0.key_at(a));
                assert(self.key_at(b2) == s0.key_at(b2));
            }
        }
        acc
    }

    /// Drains the staleness detector and removes each drained message from
    /// the front of its stream's buffer when the front carries the same
    /// timestamp (only fronts can be removed).  Returns how many messages
    /// were removed from the buffers.  Without a detector this does nothing.
    pub fn process_staleness_expiration(&mut self, now: u64) -> (r: usize)
        requires
            old(self).wf(),
        ensures
            final(self).wf(),
            final(self).same_shape(old(self)),
            final(self).commit_spec() == old(self).commit_spec(),
            old(self).detector_spec() is None ==> *final(self) == *old(self) && r == 0,
            old(self).detector_spec() is Some ==> final(self).detector_spec() is Some && final(self).detector_spec()->0.no_expired(now),
            forall|i: int|
                0 <= i < old(self).num_keys() ==> suffix_rel(
                    old(self).buf_at(i),
                    final(self).buf_at(i),
                ),
            old(self).detector_spec() matches Some(det) ==> forall|i: int|
                0 <= i < old(self).num_keys() ==> staleness_pruned::<K, T>(
                    old(self).buf_at(i),
                    final(self).buf_at(i),
                    #[trigger] old(self).key_at(i),
                    det.expired_payload(now),
                ),
            r == crate::staleness::clamp_usize(old(self).total_len() - final(self).total_len()),
    {
        let ghost s0 = *self;
        let expired = match &mut self.staleness_detector {
            Some(det) => det.drain_expired(now),
            None => {
                proof {
                    assert forall|i: int|
                        0 <= i < s0.num_keys() implies suffix_rel(
                        s0.buf_at(i),
                        self.buf_at(i),
                    ) by {
                        assert(self.buf_at(i)@ == s0.buf_at(i)@.skip(0));
                    }
                }
                return 0;
            },
        };
        proof {
            assert forall|j: int|
                0 <= j < s0.num_keys() implies suffix_rel(
                s0.buf_at(j),
                #[trigger] self.buf_at(j),
            ) by {
                assert(self.buf_at(j) == s0.buf_at(j));
                assert(self.buf_at(j)@ =~= s0.buf_at(j)@.skip(0));
            }
            assert(expired@ == s0.detector_spec()->0.expired_payload(now));
            assert forall|j: int|
                0 <= j < s0.num_keys() implies staleness_pruned::<K, T>(
                s0.buf_at(j),
                #[trigger] self.buf_at(j),
                s0.key_at(j),
                expired@.take(0),
            ) by {
                assert(self.buf_at(j) == s0.buf_at(j));
                assert(self.buf_at(j)@ =~= s0.buf_at(j)@.skip(0));
                assert(expired@.take(0).len() == 0);
            }
        }
        let total_exp = expired.len();
        let mut cnt: usize = 0;
        let mut e: usize = 0;
        while e < total_exp
            invariant
                s0 == *old(self),
                s0.wf(),
                total_exp == expired@.len(),
                self.num_keys() == s0.num_keys(),
                e <= total_exp,
                self.commit_spec() == s0.commit_spec(),
                self.buf_size_spec() == s0.buf_size_spec(),
                self.window_spec() == s0.window_spec(),
                self.policy_spec() == s0.policy_spec(),
                self.detector_spec() is Some,
                self.detector_spec()->0.wf(),
                self.detector_spec()->0.no_expired(now),
                s0.detector_spec() is Some,
                expired@ == s0.detector_spec()->0.expired_payload(now),
                forall|j: int|
                    0 <= j < s0.num_keys() ==> staleness_pruned::<K, T>(
                        s0.buf_at(j),
                        #[trigger] self.buf_at(j),
                        s0.key_at(j),
                        expired@.take(e as int),
                    ),
                forall|j: int| 0 <= j < s0.num_keys() ==> self.key_at(j) == s0.key_at(j),
                forall|j: int|
                    0 <= j < s0.num_keys() ==> suffix_rel(
                        s0.buf_at(j),
                        #[trigger] self.buf_at(j),
                    ),
                forall|j: int| 0 <= j < s0.num_keys() ==> #[trigger] self.buf_at(j).wf(),
                forall|j: int|
                    0 <= j < s0.num_keys() ==> #[trigger] self.buf_at(j)@.len() <= s0.buf_at(
                        j,
                    )@.len(),
                (s0.commit_spec() matches Some(c) ==> forall|i: int, k: int|
                    0 <= i < self.num_keys() && 0 <= k < self.buf_at(i)@.len() ==> self.buf_at(
                        i,
                    )@[k].ts() > c),
                cnt == crate::staleness::clamp_usize(
                    total_of(s0.buffers_spec()) - total_of(self.buffers_spec()),
                ),
            decreases total_exp - e,
        {
            let ghost iter0 = *self;
            let pair = &expired[e];
            let bi_opt = self.key_index_of(&pair.0);
            match bi_opt {
                Some(bi) => {
                    let msg_ts = pair.1.timestamp();
                    let matches_front = match self.buffers[bi].1.front() {
                        Some(f) => f.timestamp() == msg_ts,
                        None => false,
                    };
                    if matches_front {
                        let ghost pre = self.buffers@;
                        let (k0, mut b) = self.buffers.remove(bi);
                        b.pop_front();
                        self.buffers.insert(bi, (k0, b));
                        cnt = crate::staleness::add_sat_usize(cnt, 1);
                        proof {
                            assert(self.buffers@.len() == pre.len());
                            assert(self.buffers@[bi as int].0 == pre[bi as int].0);
                            assert(forall|j: int|
                                0 <= j < pre.len() && j != bi ==> self.buffers@[j] == pre[j]);
                            assert(self.buffers@ =~= pre.update(
                                bi as int,
                                self.buffers@[bi as int],
                            ));
                            lemma_total_update(pre, bi as int, self.buffers@[bi as int]);
                            let cc = choose|cc: int|
                                {
                                    &&& 0 <= cc <= s0.buf_at(bi as int)@.len()
                                    &&& iter0.buf_at(bi as int)@ == s0.buf_at(bi as int)@.skip(
                                        cc,
                                    )
                                    &&& iter0.buf_at(bi as int).last_ts_spec() == s0.buf_at(
                                        bi as int,
                                    ).last_ts_spec()
                                };
                            assert(self.buf_at(bi as int)@ =~= s0.buf_at(bi as int)@.skip(
                                cc + 1,
                            ));
                            assert(suffix_rel(s0.buf_at(bi as int), self.buf_at(bi as int)));
                            assert forall|j: int|
                                0 <= j < s0.num_keys() implies suffix_rel(
                                s0.buf_at(j),
                                #[trigger] self.buf_at(j),
                            ) by {
                                if j != bi {
                                    assert(self.buf_at(j) == iter0.buf_at(j));
                                    assert(suffix_rel(s0.buf_at(j), iter0.buf_at(j)));
                                }
                            }
                            assert forall|j: int|
                                0 <= j < s0.num_keys() implies #[trigger] self.buf_at(j).wf()
                                by {
                                if j != bi {
                                    assert(self.buf_at(j) == iter0.buf_at(j));
                                    assert(iter0.buf_at(j).wf());
                                }
                            }
                            assert forall|j: int|
                                0 <= j < s0.num_keys() implies #[trigger] self.buf_at(j)@.len()
                                <= s0.buf_at(j)@.len() by {
                                if j != bi {
                                    assert(self.buf_at(j) == iter0.buf_at(j));
                                    assert(iter0.buf_at(j)@.len() <= s0.buf_at(j)@.len());
                                }
                            }
                            match s0.commit_spec() {
                                Some(c) => {
                                    assert forall|i2: int, k: int|
                                        0 <= i2 < self.num_keys() && 0 <= k < self.buf_at(
                                        i2,
                                    )@.len() implies self.buf_at(i2)@[k].ts() > c by {
                                        if i2 == bi {
                                            assert(self.buf_at(i2)@[k] == iter0.buf_at(
                                                i2,
                                            )@[k + 1]);
                                        } else {
                                            assert(self.buf_at(i2) == iter0.buf_at(i2));
                                        }
                                    }
                                },
                                None => {},
                            }
                            // the popped front came from this drained pair
                            assert(s0.key_at(bi as int) == expired@[e as int].0@);
                            assert(iter0.buf_at(bi as int)@.len() > 0);
                            assert(expired@[e as int].1.ts() == iter0.buf_at(
                                bi as int,
                            )@[0].ts());
                            assert forall|j: int|
                                0 <= j < s0.num_keys() implies staleness_pruned::<K, T>(
                                s0.buf_at(j),
                                #[trigger] self.buf_at(j),
                                s0.key_at(j),
                                expired@.take(e + 1),
                            ) by {
                                if j == bi {
                                    lemma_pruned_extend_pop(
                                        s0.buf_at(j),
                                        iter0.buf_at(j),
                                        self.buf_at(j),
                                        s0.key_at(j),
                                        expired@,
                                        e as int,
                                    );
                                } else {
                                    assert(self.buf_at(j) == iter0.buf_at(j));
                                    assert(staleness_pruned::<K, T>(
                                        s0.buf_at(j),
                                        self.buf_at(j),
                                        s0.key_at(j),
                                        expired@.take(e as int),
                                    ));
                                    assert(s0.key_at(j) != s0.key_at(bi as int));
                                    lemma_pruned_extend_other(
                                        s0.buf_at(j),
                                        self.buf_at(j),
                                        s0.key_at(j),
                                        expired@,
                                        e as int,
                                    );
                                }
                            }
                        }
                    } else {
                        proof {
                            let ghost kvb = s0.key_at(bi as int);
                            assert(kvb == expired@[e as int].0@);
                            assert forall|j: int|
                                0 <= j < s0.num_keys() implies staleness_pruned::<K, T>(
                                s0.buf_at(j),
                                #[trigger] self.buf_at(j),
                                s0.key_at(j),
                                expired@.take(e + 1),
                            ) by {
                                assert(self.buf_at(j) == iter0.buf_at(j));
                                assert(staleness_pruned::<K, T>(
                                    s0.buf_at(j),
                                    self.buf_at(j),
                                    s0.key_at(j),
                                    expired@.take(e as int),
                                ));
                                if j == bi {
                                    let cc = choose|cc: int|
                                        {
                                            &&& 0 <= cc <= s0.buf_at(j)@.len()
                                            &&& self.buf_at(j)@ == s0.buf_at(j)@.skip(cc)
                                            &&& self.buf_at(j).last_ts_spec() == s0.buf_at(
                                                j,
                                            ).last_ts_spec()
                                            &&& (forall|k: int|
                                                0 <= k < cc ==> exists|p: int|
                                                    0 <= p < expired@.take(e as int).len() && (
                                                    #[trigger] expired@.take(e as int)[p]).0@
                                                        == s0.key_at(j) && expired@.take(
                                                        e as int,
                                                    )[p].1.ts() == (#[trigger] s0.buf_at(
                                                        j,
                                                    )@[k]).ts())
                                            &&& ((s0.buf_at(j)@.len() > 0 && exists|p: int|
                                                0 <= p < expired@.take(e as int).len() && (
                                                #[trigger] expired@.take(e as int)[p]).0@
                                                    == s0.key_at(j) && expired@.take(
                                                    e as int,
                                                )[p].1.ts() == s0.buf_at(j)@[0].ts())
                                                ==> cc >= 1)
                                        };
                                    if s0.buf_at(j)@.len() > 0 {
                                        if cc == 0 {
                                            assert(self.buf_at(j)@ =~= s0.buf_at(j)@);
                                            assert(self.buf_at(j)@[0] == s0.buf_at(j)@[0]);
                                            assert(expired@[e as int].1.ts() != s0.buf_at(
                                                j,
                                            )@[0].ts());
                                        } else {
                                            assert(self.buf_at(j)@.len() < s0.buf_at(
                                                j,
                                            )@.len());
                                        }
                                    }
                                    lemma_pruned_extend_nomatch(
                                        s0.buf_at(j),
                                        self.buf_at(j),
                                        s0.key_at(j),
                                        expired@,
                                        e as int,
                                    );
                                } else {
                                    assert(s0.key_at(j) != kvb);
                                    lemma_pruned_extend_other(
                                        s0.buf_at(j),
                                        self.buf_at(j),
                                        s0.key_at(j),
                                        expired@,
                                        e as int,
                                    );
                                }
                            }
                        }
                    }
                },
                None => {
                    proof {
                        assert forall|j: int|
                            0 <= j < s0.num_keys() implies staleness_pruned::<K, T>(
                            s0.buf_at(j),
                            #[trigger] self.buf_at(j),
                            s0.key_at(j),
                            expired@.take(e + 1),
                        ) by {
                            assert(self.buf_at(j) == iter0.buf_at(j));
                            assert(staleness_pruned::<K, T>(
                                s0.buf_at(j),
                                self.buf_at(j),
                                s0.key_at(j),
                                expired@.take(e as int),
                            ));
                            assert(self.key_at(j) != expired@[e as int].0@);
                            lemma_pruned_extend_other(
                                s0.buf_at(j),
                                self.buf_at(j),
                                s0.key_at(j),
                                expired@,
                                e as int,
                            );
                        }
                    }
                },
            }
            e = e + 1;
        }
        proof {
            assert forall|a: int, b2: int|
                0 <= a < b2 < self.num_keys() implies self.key_at(a) != self.key_at(b2) by {
                assert(self.key_at(a) == s0.key_at(a));
                assert(self.key_at(b2) == s0.key_at(b2));
            }
            assert(expired@.take(total_exp as int) =~= expired@);
            assert forall|i: int|
                0 <= i < s0.num_keys() implies staleness_pruned::<K, T>(
                s0.buf_at(i),
                self.buf_at(i),
                #[trigger] s0.key_at(i),
                s0.detector_spec()->0.expired_payload(now),
            ) by {
                assert(staleness_pruned::<K, T>(
                    s0.buf_at(i),
                    self.buf_at(i),
                    s0.key_at(i),
                    expired@.take(total_exp as int),
                ));
            }
        }
        cnt
    }
}

/// What one step of a blocking push decided.
#[derive(Debug)]
pub enum BlockingPushStep<T> {
    /// The message was inserted.
    Done,
    /// The buffer is full under `RejectNew` and the deadline has not
    /// elapsed: the host should await the space notifier and retry with the
    /// returned message.
    Wait(T),
    /// The push failed for good: a late, unknown-key or out-of-order
    /// message, or — when the deadline elapsed while the buffer was full —
    /// a timeout carrying the message.
    Fail(PushError<T>),
}

impl<K: Key, T: WithTimestamp> State<K, T> {
    /// One step of a blocking push: a push whose `BufferFull` outcome turns
    /// into waiting (or, once the host's wall-clock deadline has elapsed,
    /// into `Timeout`).  The host awaits the space notifier between `Wait`
    /// steps and retries; every other outcome is immediate.  Under
    /// `DropOldest` the inner push never reports a full buffer, so the call
    /// never waits.
    pub fn push_blocking_step(
        &mut self,
        key: K,
        item: T,
        now: u64,
        deadline_elapsed: bool,
    ) -> (r: BlockingPushStep<T>)
        requires
            old(self).wf(),
        ensures
            final(self).wf(),
            final(self).same_shape(old(self)),
            final(self).commit_spec() == old(self).commit_spec(),
            match r {
                BlockingPushStep::Done => push_post(
                    *old(self),
                    *final(self),
                    key,
                    item,
                    now,
                    Ok(()),
                ),
                BlockingPushStep::Wait(it) => {
                    &&& it == item
                    &&& !deadline_elapsed
                    &&& push_post(
                        *old(self),
                        *final(self),
                        key,
                        item,
                        now,
                        Err(PushError::BufferFull(item)),
                    )
                },
                BlockingPushStep::Fail(e) => match e {
                    PushError::BufferFull(_) => false,
                    PushError::Timeout(it) => {
                        &&& it == item
                        &&& deadline_elapsed
                        &&& push_post(
                            *old(self),
                            *final(self),
                            key,
                            item,
                            now,
                            Err(PushError::BufferFull(item)),
                        )
                    },
                    _ => push_post(*old(self), *final(self), key, item, now, Err(e)),
                },
            },
    {
        match self.push(key, item, now) {
            Ok(()) => BlockingPushStep::Done,
            Err(e) => match e {
                PushError::BufferFull(it) => {
                    if deadline_elapsed {
                        BlockingPushStep::Fail(PushError::Timeout(it))
                    } else {
                        BlockingPushStep::Wait(it)
                    }
                },
                _ => BlockingPushStep::Fail(e),
            },
        }
    }
}

/// The buffered message sequences, one per stream, in key order.
pub open spec fn views_total<T>(bufs: Seq<Seq<T>>) -> int
    decreases bufs.len(),
{
    if bufs.len() == 0 {
        0
    } else {
        views_total(bufs.drop_last()) + bufs.last().len()
    }
}

/// Some stream has no buffered message.
pub open spec fn views_some_empty<T>(bufs: Seq<Seq<T>>) -> bool {
    exists|i: int| 0 <= i < bufs.len() && (#[trigger] bufs[i]).len() == 0
}

/// Every stream has exactly one buffered message.
pub open spec fn views_all_one<T>(bufs: Seq<Seq<T>>) -> bool {
    forall|i: int| 0 <= i < bufs.len() ==> (#[trigger] bufs[i]).len() == 1
}

/// The front timestamps, one per stream.
pub open spec fn views_fronts<T: WithTimestamp>(bufs: Seq<Seq<T>>) -> Seq<u64> {
    Seq::new(bufs.len(), |i: int| bufs[i][0].ts())
}

/// The back timestamps, one per stream.
pub open spec fn views_backs<T: WithTimestamp>(bufs: Seq<Seq<T>>) -> Seq<u64> {
    Seq::new(bufs.len(), |i: int| bufs[i].last().ts())
}

/// Every stream with its front removed.
pub open spec fn views_pop_fronts<T>(bufs: Seq<Seq<T>>) -> Seq<Seq<T>> {
    Seq::new(bufs.len(), |i: int| bufs[i].skip(1))
}

/// The fronts themselves, one message per stream.
pub open spec fn views_group<T>(bufs: Seq<Seq<T>>) -> Seq<T> {
    Seq::new(bufs.len(), |i: int| bufs[i][0])
}

/// One stream with its leading messages before `ws` removed.
pub open spec fn trim_front<T: WithTimestamp>(s: Seq<T>, ws: u64) -> Seq<T>
    decreases s.len(),
{
    if s.len() == 0 {
        s
    } else if s[0].ts() >= ws {
        s
    } else {
        trim_front(s.skip(1), ws)
    }
}

/// Every stream trimmed before `ws`.
pub open spec fn trim_all<T: WithTimestamp>(bufs: Seq<Seq<T>>, ws: u64) -> Seq<Seq<T>> {
    Seq::new(bufs.len(), |i: int| trim_front(bufs[i], ws))
}

/// A front sweep that removed exactly the leading messages below `ws`
/// computes `trim_front`.
proof fn lemma_drop_is_trim<T: WithTimestamp>(pre: Seq<T>, post: Seq<T>, ws: u64, c: int)
    requires
        0 <= c <= pre.len(),
        post == pre.skip(c),
        forall|k: int| 0 <= k < c ==> pre[k].ts() < ws,
        c < pre.len() ==> pre[c].ts() >= ws,
    ensures
        post == trim_front(pre, ws),
    decreases c,
{
    if c == 0 {
        assert(post =~= pre);
    } else {
        assert(pre[0].ts() < ws);
        assert(post =~= pre.skip(1).skip(c - 1));
        assert(forall|k: int| 0 <= k < c - 1 ==> pre.skip(1)[k].ts() < ws);
        assert(c - 1 < pre.skip(1).len() ==> pre.skip(1)[c - 1].ts() >= ws);
        lemma_drop_is_trim(pre.skip(1), post, ws, c - 1);
    }
}

/// Trimming keeps a suffix, and a changed stream got strictly shorter.
proof fn lemma_trim_front_shape<T: WithTimestamp>(s: Seq<T>, ws: u64)
    ensures
        trim_front(s, ws).len() <= s.len(),
        trim_front(s, ws) != s ==> trim_front(s, ws).len() < s.len(),
    decreases s.len(),
{
    if s.len() > 0 && s[0].ts() < ws {
        lemma_trim_front_shape(s.skip(1), ws);
    }
}

/// Stream totals are never negative.
proof fn lemma_views_total_nonneg<T>(bufs: Seq<Seq<T>>)
    ensures
        views_total(bufs) >= 0,
    decreases bufs.len(),
{
    if bufs.len() > 0 {
        lemma_views_total_nonneg(bufs.drop_last());
    }
}

/// Stream totals respect pointwise length bounds.
proof fn lemma_views_total_le<T>(a: Seq<Seq<T>>, b: Seq<Seq<T>>)
    requires
        a.len() == b.len(),
        forall|i: int| 0 <= i < a.len() ==> (#[trigger] a[i]).len() <= b[i].len(),
    ensures
        views_total(a) <= views_total(b),
    decreases a.len(),
{
    if a.len() > 0 {
        assert(forall|i: int|
            0 <= i < a.drop_last().len() ==> (#[trigger] a.drop_last()[i]).len()
                <= b.drop_last()[i].len());
        lemma_views_total_le(a.drop_last(), b.drop_last());
    }
}

/// A stream shortened strictly lowers the total, others being bounded.
proof fn lemma_views_total_lt<T>(a: Seq<Seq<T>>, b: Seq<Seq<T>>, w: int)
    requires
        a.len() == b.len(),
        forall|i: int| 0 <= i < a.len() ==> (#[trigger] a[i]).len() <= b[i].len(),
        0 <= w < a.len(),
        a[w].len() < b[w].len(),
    ensures
        views_total(a) < views_total(b),
    decreases a.len(),
{
    assert(forall|i: int|
        0 <= i < a.drop_last().len() ==> (#[trigger] a.drop_last()[i]).len()
            <= b.drop_last()[i].len());
    if w == a.len() - 1 {
        lemma_views_total_le(a.drop_last(), b.drop_last());
    } else {
        lemma_views_total_lt(a.drop_last(), b.drop_last(), w);
    }
}

/// The matching fixpoint: starting from the buffered streams, the matcher
/// either reports that no group can form (some stream empty, or the finite
/// window's spread check fails), or repeatedly drops messages before `inf −
/// window` until nothing more is dropped, then pops every front.  The
/// result is the final streams paired with the emitted fronts, if any.
#[verifier::opaque]
pub open spec fn match_spec<T: WithTimestamp>(bufs: Seq<Seq<T>>, window: Option<u64>) -> (
    Seq<Seq<T>>,
    Option<Seq<T>>,
)
    decreases views_total(bufs),
    via match_spec_dec::<T>
{
    if bufs.len() == 0 || views_some_empty(bufs) {
        (bufs, None)
    } else {
        match window {
            None => (views_pop_fronts(bufs), Some(views_group(bufs))),
            Some(d) => {
                if !views_all_one(bufs) && sat_add(seq_max(views_fronts(bufs)), d) > seq_min(
                    views_backs(bufs),
                ) {
                    (bufs, None)
                } else {
                    let trimmed = trim_all(bufs, sat_sub(seq_max(views_fronts(bufs)), d));
                    if trimmed == bufs {
                        (views_pop_fronts(bufs), Some(views_group(bufs)))
                    } else {
                        match_spec(trimmed, window)
                    }
                }
            },
        }
    }
}

#[via_fn]
proof fn match_spec_dec<T: WithTimestamp>(bufs: Seq<Seq<T>>, window: Option<u64>) {
    lemma_views_total_nonneg(bufs);
    match window {
        Some(d) => {
            let ws = sat_sub(seq_max(views_fronts(bufs)), d);
            let trimmed = trim_all(bufs, ws);
            lemma_views_total_nonneg(trimmed);
            if trimmed != bufs {
                assert forall|i: int|
                    0 <= i < trimmed.len() implies (#[trigger] trimmed[i]).len()
                    <= bufs[i].len() by {
                    lemma_trim_front_shape(bufs[i], ws);
                }
                if forall|i: int| 0 <= i < bufs.len() ==> #[trigger] trimmed[i] == bufs[i] {
                    assert(trimmed =~= bufs);
                    assert(false);
                }
                let w = choose|w: int| 0 <= w < bufs.len() && #[trigger] trimmed[w] != bufs[w];
                lemma_trim_front_shape(bufs[w], ws);
                lemma_views_total_lt(trimmed, bufs, w);
            }
        },
        None => {},
    }
}

/// A step of the matching fixpoint shrinks the streams when it emits and
/// never grows them.
proof fn lemma_match_spec_total<T: WithTimestamp>(bufs: Seq<Seq<T>>, window: Option<u64>)
    ensures
        match_spec(bufs, window).1 is Some ==> views_total(match_spec(bufs, window).0)
            < views_total(bufs),
        match_spec(bufs, window).1 is None ==> views_total(match_spec(bufs, window).0)
            <= views_total(bufs),
    decreases views_total(bufs),
{
    reveal(match_spec);
    lemma_views_total_nonneg(bufs);
    if bufs.len() == 0 || views_some_empty(bufs) {
    } else {
        match window {
            None => {
                assert forall|i: int|
                    0 <= i < bufs.len() implies (#[trigger] views_pop_fronts(bufs)[i]).len()
                    <= bufs[i].len() by {}
                lemma_views_total_lt(views_pop_fronts(bufs), bufs, 0);
            },
            Some(d) => {
                if !views_all_one(bufs) && sat_add(seq_max(views_fronts(bufs)), d) > seq_min(
                    views_backs(bufs),
                ) {
                } else {
                    let ws = sat_sub(seq_max(views_fronts(bufs)), d);
                    let trimmed = trim_all(bufs, ws);
                    if trimmed == bufs {
                        assert forall|i: int|
                            0 <= i < bufs.len() implies (#[trigger] views_pop_fronts(
                            bufs,
                        )[i]).len() <= bufs[i].len() by {}
                        lemma_views_total_lt(views_pop_fronts(bufs), bufs, 0);
                    } else {
                        assert forall|i: int|
                            0 <= i < trimmed.len() implies (#[trigger] trimmed[i]).len()
                            <= bufs[i].len() by {
                            lemma_trim_front_shape(bufs[i], ws);
                        }
                        if forall|i: int| 0 <= i < bufs.len() ==> #[trigger] trimmed[i] == bufs[
                            i
                        ] {
                            assert(trimmed =~= bufs);
                            assert(false);
                        }
                        let w = choose|w: int|
                            0 <= w < bufs.len() && #[trigger] trimmed[w] != bufs[w];
                        lemma_trim_front_shape(bufs[w], ws);
                        lemma_views_total_lt(trimmed, bufs, w);
                        lemma_views_total_nonneg(trimmed);
                        lemma_match_spec_total(trimmed, window);
                    }
                }
            },
        }
    }
}

/// A state the matcher reports no group for is a fixed point: stepping it
/// again changes nothing.
pub proof fn lemma_match_spec_none_fixed<T: WithTimestamp>(bufs: Seq<Seq<T>>, window: Option<u64>)
    requires
        match_spec(bufs, window).1 is None,
    ensures
        match_spec(match_spec(bufs, window).0, window) == match_spec(bufs, window),
    decreases views_total(bufs),
{
    reveal(match_spec);
    lemma_views_total_nonneg(bufs);
    if bufs.len() == 0 || views_some_empty(bufs) {
    } else {
        match window {
            None => {},
            Some(d) => {
                if !views_all_one(bufs) && sat_add(seq_max(views_fronts(bufs)), d) > seq_min(
                    views_backs(bufs),
                ) {
                } else {
                    let ws = sat_sub(seq_max(views_fronts(bufs)), d);
                    let trimmed = trim_all(bufs, ws);
                    if trimmed == bufs {
                    } else {
                        assert forall|i: int|
                            0 <= i < trimmed.len() implies (#[trigger] trimmed[i]).len()
                            <= bufs[i].len() by {
                            lemma_trim_front_shape(bufs[i], ws);
                        }
                        if forall|i: int| 0 <= i < bufs.len() ==> #[trigger] trimmed[i] == bufs[
                            i
                        ] {
                            assert(trimmed =~= bufs);
                            assert(false);
                        }
                        let w = choose|w: int|
                            0 <= w < bufs.len() && #[trigger] trimmed[w] != bufs[w];
                        lemma_trim_front_shape(bufs[w], ws);
                        lemma_views_total_lt(trimmed, bufs, w);
                        lemma_views_total_nonneg(trimmed);
                        lemma_match_spec_none_fixed(trimmed, window);
                    }
                }
            },
        }
    }
}

/// Trimming keeps a suffix of the stream.
proof fn lemma_trim_front_is_suffix<T: WithTimestamp>(s: Seq<T>, ws: u64)
    ensures
        exists|k: int| 0 <= k <= s.len() && trim_front(s, ws) == #[trigger] s.skip(k),
    decreases s.len(),
{
    if s.len() == 0 || s[0].ts() >= ws {
        assert(trim_front(s, ws) =~= s.skip(0));
    } else {
        lemma_trim_front_is_suffix(s.skip(1), ws);
        let k = choose|k: int|
            0 <= k <= s.skip(1).len() && trim_front(s.skip(1), ws) == #[trigger] s.skip(1).skip(
                k,
            );
        assert(trim_front(s, ws) =~= s.skip(k + 1));
    }
}

/// `m` sat at some position of `pre` and `post` is exactly what follows it.
pub open spec fn popped_at<T>(pre: Seq<T>, post: Seq<T>, m: T) -> bool {
    exists|c: int| 1 <= c <= pre.len() && m == pre[c - 1] && post == #[trigger] pre.skip(c)
}

/// `post` is a suffix of `pre`.
pub open spec fn suffix_of<T>(pre: Seq<T>, post: Seq<T>) -> bool {
    exists|c: int| 0 <= c <= pre.len() && post == #[trigger] pre.skip(c)
}

/// What a fixpoint step does to each stream: when a group is emitted, the
/// stream's emitted message sits at some position and the stream keeps
/// exactly what follows it; when none is, the stream keeps a suffix.
pub proof fn lemma_match_spec_membership<T: WithTimestamp>(bufs: Seq<Seq<T>>, window: Option<u64>)
    ensures
        match_spec(bufs, window).1 matches Some(g) ==> g.len() == bufs.len() && (forall|i: int|
            0 <= i < bufs.len() ==> popped_at(
                #[trigger] bufs[i],
                match_spec(bufs, window).0[i],
                g[i],
            )),
        match_spec(bufs, window).1 is None ==> forall|i: int|
            0 <= i < bufs.len() ==> suffix_of(#[trigger] bufs[i], match_spec(bufs, window).0[i]),
    decreases views_total(bufs),
{
    reveal(match_spec);
    lemma_views_total_nonneg(bufs);
    if bufs.len() == 0 || views_some_empty(bufs) {
        assert forall|i: int|
            0 <= i < bufs.len() implies suffix_of(
            #[trigger] bufs[i],
            match_spec(bufs, window).0[i],
        ) by {
            assert(match_spec(bufs, window).0[i] =~= bufs[i].skip(0));
        }
    } else {
        match window {
            None => {
                assert(match_spec(bufs, window) == (
                    views_pop_fronts(bufs),
                    Some(views_group(bufs)),
                ));
                assert(views_group(bufs).len() == bufs.len());
                assert forall|i: int|
                    0 <= i < bufs.len() implies popped_at(
                    #[trigger] bufs[i],
                    match_spec(bufs, window).0[i],
                    views_group(bufs)[i],
                ) by {
                    assert(views_group(bufs)[i] == bufs[i][0]);
                    assert(match_spec(bufs, window).0[i] =~= bufs[i].skip(1));
                }
            },
            Some(d) => {
                if !views_all_one(bufs) && sat_add(seq_max(views_fronts(bufs)), d) > seq_min(
                    views_backs(bufs),
                ) {
                    assert forall|i: int|
                        0 <= i < bufs.len() implies suffix_of(
                        #[trigger] bufs[i],
                        match_spec(bufs, window).0[i],
                    ) by {
                        assert(match_spec(bufs, window).0[i] =~= bufs[i].skip(0));
                    }
                } else {
                    let ws = sat_sub(seq_max(views_fronts(bufs)), d);
                    let trimmed = trim_all(bufs, ws);
                    if trimmed == bufs {
                        assert(match_spec(bufs, window) == (
                            views_pop_fronts(bufs),
                            Some(views_group(bufs)),
                        ));
                        assert(views_group(bufs).len() == bufs.len());
                        assert forall|i: int|
                            0 <= i < bufs.len() implies popped_at(
                            #[trigger] bufs[i],
                            match_spec(bufs, window).0[i],
                            views_group(bufs)[i],
                        ) by {
                            assert(views_group(bufs)[i] == bufs[i][0]);
                            assert(match_spec(bufs, window).0[i] =~= bufs[i].skip(1));
                        }
                    } else {
                        assert forall|i: int|
                            0 <= i < trimmed.len() implies (#[trigger] trimmed[i]).len()
                            <= bufs[i].len() by {
                            lemma_trim_front_shape(bufs[i], ws);
                        }
                        if forall|i: int| 0 <= i < bufs.len() ==> #[trigger] trimmed[i] == bufs[
                            i
                        ] {
                            assert(trimmed =~= bufs);
                            assert(false);
                        }
                        let w = choose|w: int|
                            0 <= w < bufs.len() && #[trigger] trimmed[w] != bufs[w];
                        lemma_trim_front_shape(bufs[w], ws);
                        lemma_views_total_lt(trimmed, bufs, w);
                        lemma_views_total_nonneg(trimmed);
                        lemma_match_spec_membership(trimmed, window);
                        assert(match_spec(bufs, window) == match_spec(trimmed, window));
                        match match_spec(trimmed, window).1 {
                            Some(g) => {
                                assert forall|i: int|
                                    0 <= i < bufs.len() implies popped_at(
                                    #[trigger] bufs[i],
                                    match_spec(bufs, window).0[i],
                                    g[i],
                                ) by {
                                    lemma_trim_front_is_suffix(bufs[i], ws);
                                    let k = choose|k: int|
                                        0 <= k <= bufs[i].len() && trim_front(bufs[i], ws)
                                            == #[trigger] bufs[i].skip(k);
                                    assert(popped_at(trimmed[i], match_spec(
                                        trimmed,
                                        window,
                                    ).0[i], g[i]));
                                    let c2 = choose|c2: int|
                                        1 <= c2 <= trimmed[i].len() && g[i] == trimmed[i][
                                            c2 - 1
                                        ] && match_spec(trimmed, window).0[i]
                                            == #[trigger] trimmed[i].skip(c2);
                                    assert(trimmed[i] == bufs[i].skip(k));
                                    assert(g[i] == bufs[i][(k + c2) - 1]);
                                    assert(match_spec(bufs, window).0[i] =~= bufs[i].skip(
                                        k + c2,
                                    ));
                                }
                            },
                            None => {
                                assert forall|i: int|
                                    0 <= i < bufs.len() implies suffix_of(
                                    #[trigger] bufs[i],
                                    match_spec(bufs, window).0[i],
                                ) by {
                                    lemma_trim_front_is_suffix(bufs[i], ws);
                                    let k = choose|k: int|
                                        0 <= k <= bufs[i].len() && trim_front(bufs[i], ws)
                                            == #[trigger] bufs[i].skip(k);
                                    assert(suffix_of(trimmed[i], match_spec(
                                        trimmed,
                                        window,
                                    ).0[i]));
                                    let c2 = choose|c2: int|
                                        0 <= c2 <= trimmed[i].len() && match_spec(
                                            trimmed,
                                            window,
                                        ).0[i] == #[trigger] trimmed[i].skip(c2);
                                    assert(trimmed[i] == bufs[i].skip(k));
                                    assert(match_spec(bufs, window).0[i] =~= bufs[i].skip(
                                        k + c2,
                                    ));
                                }
                            },
                        }
                    }
                }
            },
        }
    }
}

/// Appending a message above `t` to a kept-or-evicted buffer above `t`
/// stays above `t`.
proof fn lemma_beyond_after_append<T: WithTimestamp>(
    prebuf: Seq<T>,
    postbuf: Seq<T>,
    tb: Seq<T>,
    item: T,
    t: u64,
)
    requires
        forall|k: int| 0 <= k < prebuf.len() ==> prebuf[k].ts() > t,
        tb == prebuf || (prebuf.len() >= 1 && tb == prebuf.skip(1)),
        postbuf == tb.push(item),
        item.ts() > t,
    ensures
        forall|k: int| 0 <= k < postbuf.len() ==> postbuf[k].ts() > t,
{
    assert forall|k: int| 0 <= k < postbuf.len() implies postbuf[k].ts() > t by {
        if k < tb.len() {
            assert(postbuf[k] == tb[k]);
            if tb == prebuf.skip(1) {
                assert(prebuf.skip(1)[k] == prebuf[k + 1]);
                assert(tb[k] == prebuf[k + 1]);
            } else {
                assert(tb[k] == prebuf[k]);
            }
        } else {
            assert(postbuf[k] == item);
        }
    }
}

/// A kept-or-evicted buffer above `t` stays above `t`.
proof fn lemma_beyond_after_trim<T: WithTimestamp>(prebuf: Seq<T>, postbuf: Seq<T>, t: u64)
    requires
        forall|k: int| 0 <= k < prebuf.len() ==> prebuf[k].ts() > t,
        postbuf == prebuf || (prebuf.len() >= 1 && postbuf == prebuf.skip(1)),
    ensures
        forall|k: int| 0 <= k < postbuf.len() ==> postbuf[k].ts() > t,
{
    assert forall|k: int| 0 <= k < postbuf.len() implies postbuf[k].ts() > t by {
        if postbuf == prebuf.skip(1) {
            assert(prebuf.skip(1)[k] == prebuf[k + 1]);
            assert(postbuf[k] == prebuf[k + 1]);
        } else {
            assert(postbuf[k] == prebuf[k]);
        }
    }
}

/// Stream `i` has moved past the instant `t`: every buffered message is
/// stamped strictly above `t` and the watermark has reached `t`.  This is
/// the state a stream is left in when a front stamped `t` is pruned.
pub open spec fn stream_beyond<K: Key, T: WithTimestamp>(s: State<K, T>, i: int, t: u64) -> bool {
    &&& 0 <= i < s.num_keys()
    &&& (forall|k: int| 0 <= k < s.buf_at(i)@.len() ==> s.buf_at(i)@[k].ts() > t)
    &&& (s.buf_at(i).last_ts_spec() matches Some(l) && l >= t)
}

/// A pruned instant stays pruned across pushes: a stream whose messages all
/// sit above `t` and whose watermark has reached `t` admits only messages
/// above the watermark, so it still holds nothing at or below `t`.
pub proof fn lemma_stream_beyond_push<K: Key, T: WithTimestamp>(
    pre: State<K, T>,
    post: State<K, T>,
    i: int,
    t: u64,
    key: K,
    item: T,
    now: u64,
    r: Result<(), PushError<T>>,
)
    requires
        pre.wf(),
        stream_beyond(pre, i, t),
        push_post(pre, post, key, item, now, r),
        post.same_shape(&pre),
    ensures
        stream_beyond(post, i, t),
{
    match r {
        Ok(()) => {
            let w = choose|w: int|
                {
                    &&& 0 <= w < pre.num_keys()
                    &&& pre.key_at(w) == key@
                    &&& (pre.buf_at(w).last_ts_spec() matches Some(l) ==> item.ts() > l)
                    &&& post.buf_at(w)@ == pre.trimmed_buf(w).push(item)
                    &&& post.buf_at(w).last_ts_spec() == Some(item.ts())
                    &&& (forall|j: int|
                        0 <= j < pre.num_keys() && j != w ==> post.buf_at(j) == pre.buf_at(j))
                };
            if w == i {
                let tb = pre.trimmed_buf(i);
                assert(tb == pre.buf_at(i)@ || tb == pre.buf_at(i)@.skip(1));
                assert(item.ts() > t);
                lemma_beyond_after_append(pre.buf_at(i)@, post.buf_at(i)@, tb, item, t);
            }
        },
        Err(e) => match e {
            PushError::OutOfOrder(_) => {
                let w = choose|w: int|
                    {
                        &&& 0 <= w < pre.num_keys()
                        &&& pre.key_at(w) == key@
                        &&& post.buf_at(w)@ == pre.trimmed_buf(w)
                        &&& post.buf_at(w).last_ts_spec() == pre.buf_at(w).last_ts_spec()
                        &&& (forall|j: int|
                            0 <= j < pre.num_keys() && j != w ==> post.buf_at(j) == pre.buf_at(
                                j,
                            ))
                    };
                if w == i {
                    let tb = pre.trimmed_buf(i);
                    assert(tb == pre.buf_at(i)@ || tb == pre.buf_at(i)@.skip(1));
                    lemma_beyond_after_trim(pre.buf_at(i)@, post.buf_at(i)@, t);
                }
            },
            _ => {},
        },
    }
}

/// A pruned instant is never emitted again for its stream: a match pops
/// only buffered messages, so a stream beyond `t` contributes a message
/// stamped strictly above `t` — never the pruned one — and stays beyond
/// `t` afterwards.
pub proof fn lemma_stream_beyond_match<K: Key, T: WithTimestamp>(
    pre: State<K, T>,
    post: State<K, T>,
    i: int,
    t: u64,
    r: Option<Vec<(K, T)>>,
)
    requires
        stream_beyond(pre, i, t),
        post.views() == match_spec(pre.views(), pre.window_spec()).0,
        match r {
            Some(g) => match_spec(pre.views(), pre.window_spec()).1 == Some(
                Seq::new(g@.len() as nat, |j: int| g@[j].1),
            ),
            None => match_spec(pre.views(), pre.window_spec()).1 is None,
        },
        forall|j: int| 0 <= j < pre.num_keys() ==> suffix_rel(pre.buf_at(j), post.buf_at(j)),
        post.num_keys() == pre.num_keys(),
    ensures
        stream_beyond(post, i, t),
        r matches Some(g) ==> g@.len() == pre.num_keys() && g@[i].1.ts() > t,
{
    lemma_match_spec_membership(pre.views(), pre.window_spec());
    assert(pre.views()[i] == pre.buf_at(i)@);
    assert(post.views()[i] == post.buf_at(i)@);
    // the watermark survives: matching only pops
    assert(suffix_rel(pre.buf_at(i), post.buf_at(i)));
    let cs = choose|cs: int|
        {
            &&& 0 <= cs <= pre.buf_at(i)@.len()
            &&& post.buf_at(i)@ == pre.buf_at(i)@.skip(cs)
            &&& post.buf_at(i).last_ts_spec() == pre.buf_at(i).last_ts_spec()
        };
    assert forall|k: int|
        0 <= k < post.buf_at(i)@.len() implies post.buf_at(i)@[k].ts() > t by {
        assert(post.buf_at(i)@[k] == pre.buf_at(i)@[k + cs]);
    }
    match r {
        Some(g) => {
            let gv = Seq::new(g@.len() as nat, |j: int| g@[j].1);
            assert(popped_at(pre.views()[i], match_spec(pre.views(), pre.window_spec()).0[i], gv[i]));
            let c = choose|c: int|
                1 <= c <= pre.views()[i].len() && gv[i] == pre.views()[i][c - 1]
                    && match_spec(pre.views(), pre.window_spec()).0[i] == #[trigger] pre.views()[
                    i
                ].skip(c);
            assert(g@[i].1 == pre.buf_at(i)@[c - 1]);
            assert(pre.buf_at(i)@[c - 1].ts() > t);
        },
        None => {},
    }
}

/// Draining the matching fixpoint: groups are emitted until a step reports
/// that none can form; the result is the final streams and the emitted
/// groups in order.
#[verifier::opaque]
pub open spec fn drain_spec<T: WithTimestamp>(bufs: Seq<Seq<T>>, window: Option<u64>) -> (
    Seq<Seq<T>>,
    Seq<Seq<T>>,
)
    decreases views_total(bufs),
    via drain_spec_dec::<T>
{
    let stepped = match_spec(bufs, window);
    match stepped.1 {
        None => (stepped.0, Seq::empty()),
        Some(g) => {
            let rest = drain_spec(stepped.0, window);
            (rest.0, seq![g] + rest.1)
        },
    }
}

#[via_fn]
proof fn drain_spec_dec<T: WithTimestamp>(bufs: Seq<Seq<T>>, window: Option<u64>) {
    lemma_views_total_nonneg(bufs);
    lemma_match_spec_total(bufs, window);
    lemma_views_total_nonneg(match_spec(bufs, window).0);
}

/// The timestamps of a group's messages, in key order.
pub open spec fn group_ts<K, T: WithTimestamp>(g: Seq<(K, T)>) -> Seq<u64> {
    Seq::new(g.len(), |j: int| g[j].1.ts())
}

/// Buffer-length sums are never negative.
proof fn lemma_total_nonneg<K, T>(s: Seq<(K, Buffer<T>)>)
    ensures
        total_of(s) >= 0,
    decreases s.len(),
{
    if s.len() > 0 {
        lemma_total_nonneg(s.drop_last());
    }
}

/// A state's total message count is never negative.
pub proof fn lemma_state_total_nonneg<K: Key, T: WithTimestamp>(s: State<K, T>)
    ensures
        s.total_len() >= 0,
{
    lemma_total_nonneg(s.buffers_spec());
}

/// Everything `try_match` guarantees about the emitted group and the state
/// change, by result.
pub open spec fn try_match_post<K: Key, T: WithTimestamp>(
    pre: State<K, T>,
    post: State<K, T>,
    r: Option<Vec<(K, T)>>,
) -> bool {
    match r {
        None => {
    &&& post.commit_spec() == pre.commit_spec()
    &&& post.total_len() <= pre.total_len()
    &&& ((exists|i: int|
        0 <= i < post.num_keys() && #[trigger] post.buf_at(
            i,
        )@.len() == 0) || {
        &&& pre.window_spec() is Some
        &&& !(forall|i: int|
            0 <= i < post.num_keys() ==> #[trigger] post.buf_at(
                i,
            )@.len() == 1)
        &&& post.all_nonempty()
        &&& sat_add(post.inf_spec(), pre.window_spec()->0)
            > post.sup_spec()
    })
        },
        Some(g) => {
    &&& g@.len() == pre.num_keys()
    &&& (forall|j: int|
        0 <= j < g@.len() ==> #[trigger] g@[j].0@ == pre.key_at(j))
    &&& post.commit_spec() == Some(seq_min(group_ts(g@)))
    &&& (pre.commit_spec() matches Some(c) ==> seq_min(group_ts(g@)) > c)
    &&& (pre.window_spec() matches Some(d) ==> seq_max(group_ts(g@))
        <= sat_add(seq_min(group_ts(g@)), d))
    &&& post.total_len() < pre.total_len()
        },
    }
}

impl<K: Key, T: WithTimestamp> State<K, T> {
    /// The window-trimming phase of the matcher.  Repeatedly checks the
    /// spread between the latest front (`inf`) and the earliest back (`sup`)
    /// and drops messages before `inf` minus the window, until a stable
    /// configuration is reached (true) or matching is impossible (false:
    /// a buffer is empty, or the spread does not cover the finite window).
    #[verifier::rlimit(100)]
    #[verifier::spinoff_prover]
    fn trim_to_window(&mut self) -> (r: bool)
        requires
            old(self).wf(),
        ensures
            final(self).wf(),
            final(self).same_shape(old(self)),
            final(self).commit_spec() == old(self).commit_spec(),
            final(self).detector_spec() == old(self).detector_spec(),
            forall|i: int|
                0 <= i < old(self).num_keys() ==> suffix_rel(
                    old(self).buf_at(i),
                    final(self).buf_at(i),
                ),
            final(self).total_len() <= old(self).total_len(),
            r ==> final(self).all_nonempty(),
            r ==> (old(self).window_spec() matches Some(d) ==> forall|i: int, k: int|
                0 <= i < final(self).num_keys() && 0 <= k < final(self).buf_at(i)@.len()
                    ==> #[trigger] final(self).buf_at(i)@[k].ts() >= sat_sub(
                    final(self).inf_spec(),
                    d,
                )),
            !r ==> ((exists|i: int|
                0 <= i < final(self).num_keys() && #[trigger] final(self).buf_at(i)@.len()
                    == 0) || {
                &&& old(self).window_spec() is Some
                &&& !(forall|i: int|
                    0 <= i < final(self).num_keys() ==> #[trigger] final(self).buf_at(
                        i,
                    )@.len() == 1)
                &&& final(self).all_nonempty()
                &&& sat_add(final(self).inf_spec(), old(self).window_spec()->0) > final(self).sup_spec()
            }),
            old(self).no_match_possible() ==> !r && *final(self) == *old(self),
            r && old(self).window_spec() is None ==> *final(self) == *old(self),
            r ==> match_spec(old(self).views(), old(self).window_spec()) == (
                views_pop_fronts(final(self).views()),
                Some(views_group(final(self).views())),
            ),
            !r ==> match_spec(old(self).views(), old(self).window_spec()) == (
                final(self).views(),
                None::<Seq<T>>,
            ),
    {
        let ghost s0 = *self;
        proof {
            assert forall|i: int|
                0 <= i < s0.num_keys() implies suffix_rel(
                s0.buf_at(i),
                #[trigger] self.buf_at(i),
            ) by {
                assert(self.buf_at(i)@ =~= s0.buf_at(i)@.skip(0));
            }
        }
        loop
            invariant
                s0 == *old(self),
                s0.wf(),
                self.wf(),
                self.same_shape(&s0),
                self.commit_spec() == s0.commit_spec(),
                self.detector_spec() == s0.detector_spec(),
                forall|i: int|
                    0 <= i < s0.num_keys() ==> suffix_rel(
                        s0.buf_at(i),
                        #[trigger] self.buf_at(i),
                    ),
                self.total_len() <= s0.total_len(),
                s0.no_match_possible() ==> *self == s0,
                s0.window_spec() is None ==> *self == s0,
                match_spec(self.views(), s0.window_spec()) == match_spec(
                    s0.views(),
                    s0.window_spec(),
                ),
            ensures
                self.wf(),
                self.same_shape(&s0),
                self.commit_spec() == s0.commit_spec(),
                self.detector_spec() == s0.detector_spec(),
                forall|i: int|
                    0 <= i < s0.num_keys() ==> suffix_rel(
                        s0.buf_at(i),
                        #[trigger] self.buf_at(i),
                    ),
                self.total_len() <= s0.total_len(),
                self.all_nonempty(),
                s0.window_spec() matches Some(d) ==> forall|i: int, k: int|
                    0 <= i < self.num_keys() && 0 <= k < self.buf_at(i)@.len()
                        ==> #[trigger] self.buf_at(i)@[k].ts() >= sat_sub(self.inf_spec(), d),
                !s0.no_match_possible(),
                s0.window_spec() is None ==> *self == s0,
                match_spec(s0.views(), s0.window_spec()) == (
                    views_pop_fronts(self.views()),
                    Some(views_group(self.views())),
                ),
            decreases self.total_len(),
        {
            proof {
                lemma_total_nonneg(self.buffers_spec());
            }
            if self.is_empty() {
                proof {
                    reveal(match_spec);
                    assert(self.views().len() == self.num_keys());
                    let e = choose|e: int|
                        0 <= e < self.num_keys() && #[trigger] self.buf_at(e)@.len() == 0;
                    assert((self.views()[e]).len() == 0);
                    assert(views_some_empty(self.views()));
                    assert(match_spec(self.views(), s0.window_spec()) == (
                        self.views(),
                        None::<Seq<T>>,
                    ));
                }
                return false;
            }
            let inf = match self.inf_timestamp() {
                Some((_k, t)) => t,
                None => {
                    proof {
                        assert(false);
                    }
                    0
                },
            };
            match self.window_size {
                Some(d) => {
                    let a1 = self.all_one();
                    let sup = match self.sup_timestamp() {
                        Some((_k, t)) => t,
                        None => {
                            proof {
                                assert(false);
                            }
                            0
                        },
                    };
                    if !a1 && crate::types::add_sat(inf, d) > sup {
                        proof {
                    reveal(match_spec);
                            assert(self.views().len() == self.num_keys());
                            assert forall|e: int|
                                0 <= e < self.views().len() implies (
                            #[trigger] self.views()[e]).len() > 0 by {
                                assert(self.buf_at(e)@.len() > 0);
                            }
                            assert(!views_some_empty(self.views()));
                            let w1 = choose|w1: int|
                                0 <= w1 < self.num_keys() && #[trigger] self.buf_at(w1)@.len()
                                    != 1;
                            assert((self.views()[w1]).len() != 1);
                            assert(!views_all_one(self.views()));
                            assert(views_fronts(self.views()) =~= self.fronts());
                            assert(views_backs(self.views()) =~= self.backs());
                            assert(match_spec(self.views(), s0.window_spec()) == (
                                self.views(),
                                None::<Seq<T>>,
                            ));
                        }
                        return false;
                    }
                    let ws = crate::types::sub_sat(inf, d);
                    // drop messages before the window start, in every buffer
                    let ghost p0 = *self;
                    proof {
                        assert(!s0.no_match_possible()) by {
                            if s0.no_match_possible() {
                                assert(*self == s0);
                            }
                        }
                    }
                    let n = self.buffers.len();
                    let mut dropped_any = false;
                    let ghost mut dropped_w: int = 0;
                    let mut i: usize = 0;
                    while i < n
                        invariant
                            s0 == *old(self),
                            s0.wf(),
                            p0.wf(),
                            p0.same_shape(&s0),
                            p0.commit_spec() == s0.commit_spec(),
                            p0.detector_spec() == s0.detector_spec(),
                            forall|j: int|
                                0 <= j < s0.num_keys() ==> suffix_rel(
                                    s0.buf_at(j),
                                    #[trigger] p0.buf_at(j),
                                ),
                            total_of(p0.buffers_spec()) <= total_of(s0.buffers_spec()),
                            s0.window_spec() == Some(d),
                            !s0.no_match_possible(),
                            p0.all_nonempty(),
                            inf == p0.inf_spec(),
                            ws == sat_sub(inf, d),
                            n == p0.num_keys(),
                            self.num_keys() == n,
                            i <= n,
                            self.commit_spec() == p0.commit_spec(),
                            self.buf_size_spec() == p0.buf_size_spec(),
                            self.window_spec() == p0.window_spec(),
                            self.policy_spec() == p0.policy_spec(),
                            self.detector_spec() == p0.detector_spec(),
                            forall|j: int| 0 <= j < n ==> self.key_at(j) == p0.key_at(j),
                            forall|j: int| i <= j < n ==> self.buf_at(j) == p0.buf_at(j),
                            forall|j: int|
                                0 <= j < i ==> suffix_rel(
                                    p0.buf_at(j),
                                    #[trigger] self.buf_at(j),
                                ),
                            forall|j: int|
                                0 <= j < i ==> #[trigger] self.buf_at(j)@ == trim_front(
                                    p0.buf_at(j)@,
                                    ws,
                                ),
                            dropped_any ==> 0 <= dropped_w < n && self.buf_at(
                                dropped_w,
                            )@.len() < p0.buf_at(dropped_w)@.len() && dropped_w < i,
                            forall|j: int| 0 <= j < i ==> #[trigger] self.buf_at(j).wf(),
                            forall|j: int|
                                0 <= j < i ==> #[trigger] self.buf_at(j)@.len() <= p0.buf_at(
                                    j,
                                )@.len(),
                            forall|j: int, k: int|
                                0 <= j < i && 0 <= k < self.buf_at(j)@.len()
                                    ==> #[trigger] self.buf_at(j)@[k].ts() >= ws,
                            !dropped_any ==> forall|j: int|
                                0 <= j < n ==> #[trigger] self.buf_at(j)@ == p0.buf_at(j)@
                                    && self.buf_at(j).last_ts_spec() == p0.buf_at(
                                    j,
                                ).last_ts_spec(),
                            total_of(self.buffers_spec()) <= total_of(p0.buffers_spec()),
                            dropped_any ==> total_of(self.buffers_spec()) < total_of(
                                p0.buffers_spec(),
                            ),
                        decreases n - i,
                    {
                        let ghost iter0 = *self;
                        let ghost pre = self.buffers@;
                        let (k0, mut b) = self.buffers.remove(i);
                        proof {
                            assert(b == p0.buf_at(i as int));
                            assert(b.wf());
                        }
                        let count = b.drop_before(ws);
                        self.buffers.insert(i, (k0, b));
                        if count > 0 {
                            dropped_any = true;
                            proof {
                                dropped_w = i as int;
                            }
                        }
                        proof {
                            assert(self.buffers@.len() == pre.len());
                            assert(self.buffers@[i as int].0 == pre[i as int].0);
                            assert(forall|j: int|
                                0 <= j < pre.len() && j != i ==> self.buffers@[j] == pre[j]);
                            assert(self.buffers@ =~= pre.update(
                                i as int,
                                self.buffers@[i as int],
                            ));
                            lemma_total_update(pre, i as int, self.buffers@[i as int]);
                            assert(suffix_rel(p0.buf_at(i as int), self.buf_at(i as int)));
                            if (count as int) < p0.buf_at(i as int)@.len() {
                                assert(self.buf_at(i as int)@[0] == p0.buf_at(i as int)@[
                                    count as int
                                ]);
                                assert(self.buf_at(i as int)@[0].ts() >= ws);
                            }
                            lemma_drop_is_trim(
                                p0.buf_at(i as int)@,
                                self.buf_at(i as int)@,
                                ws,
                                count as int,
                            );
                            assert forall|j: int|
                                0 <= j < i + 1 implies #[trigger] self.buf_at(j)@ == trim_front(
                                p0.buf_at(j)@,
                                ws,
                            ) by {
                                if j < i {
                                    assert(self.buf_at(j) == iter0.buf_at(j));
                                    assert(iter0.buf_at(j)@ == trim_front(p0.buf_at(j)@, ws));
                                }
                            }
                            assert forall|j: int|
                                0 <= j < i + 1 implies suffix_rel(
                                p0.buf_at(j),
                                #[trigger] self.buf_at(j),
                            ) by {
                                if j < i {
                                    assert(self.buf_at(j) == iter0.buf_at(j));
                                    assert(suffix_rel(p0.buf_at(j), iter0.buf_at(j)));
                                }
                            }
                            assert forall|j: int|
                                0 <= j < i + 1 implies #[trigger] self.buf_at(j).wf() by {
                                if j < i {
                                    assert(self.buf_at(j) == iter0.buf_at(j));
                                    assert(iter0.buf_at(j).wf());
                                }
                            }
                            assert forall|j: int|
                                0 <= j < i + 1 implies #[trigger] self.buf_at(j)@.len()
                                <= p0.buf_at(j)@.len() by {
                                if j < i {
                                    assert(self.buf_at(j) == iter0.buf_at(j));
                                    assert(iter0.buf_at(j)@.len() <= p0.buf_at(j)@.len());
                                }
                            }
                            assert forall|j: int, k: int|
                                0 <= j < i + 1 && 0 <= k < self.buf_at(j)@.len() implies
                                #[trigger] self.buf_at(j)@[k].ts() >= ws by {
                                if j < i {
                                    assert(self.buf_at(j) == iter0.buf_at(j));
                                    assert(iter0.buf_at(j)@[k].ts() >= ws);
                                }
                            }
                            if !dropped_any {
                                assert(count == 0);
                                assert(self.buf_at(i as int)@ =~= p0.buf_at(i as int)@.skip(0));
                                assert forall|j: int|
                                    0 <= j < n implies #[trigger] self.buf_at(j)@ == p0.buf_at(
                                    j,
                                )@ && self.buf_at(j).last_ts_spec() == p0.buf_at(
                                    j,
                                ).last_ts_spec() by {
                                    if j != i {
                                        assert(self.buf_at(j) == iter0.buf_at(j));
                                    }
                                }
                            }
                        }
                        i = i + 1;
                    }
                    proof {
                        // the state keeps only suffixes of the original
                        // buffers, so it stays well-formed
                        assert forall|j: int|
                            0 <= j < s0.num_keys() implies suffix_rel(
                            s0.buf_at(j),
                            #[trigger] self.buf_at(j),
                        ) by {
                            assert(suffix_rel(s0.buf_at(j), p0.buf_at(j)));
                            assert(suffix_rel(p0.buf_at(j), self.buf_at(j)));
                            let c1 = choose|c1: int|
                                {
                                    &&& 0 <= c1 <= s0.buf_at(j)@.len()
                                    &&& p0.buf_at(j)@ == s0.buf_at(j)@.skip(c1)
                                    &&& p0.buf_at(j).last_ts_spec() == s0.buf_at(
                                        j,
                                    ).last_ts_spec()
                                };
                            let c2 = choose|c2: int|
                                {
                                    &&& 0 <= c2 <= p0.buf_at(j)@.len()
                                    &&& self.buf_at(j)@ == p0.buf_at(j)@.skip(c2)
                                    &&& self.buf_at(j).last_ts_spec() == p0.buf_at(
                                        j,
                                    ).last_ts_spec()
                                };
                            assert(self.buf_at(j)@ =~= s0.buf_at(j)@.skip(c1 + c2));
                        }
                        assert forall|a: int, b2: int|
                            0 <= a < b2 < self.num_keys() implies self.key_at(a) != self.key_at(
                            b2,
                        ) by {
                            assert(self.key_at(a) == p0.key_at(a));
                            assert(self.key_at(b2) == p0.key_at(b2));
                        }
                        match self.commit_spec() {
                            Some(c) => {
                                assert forall|a: int, k: int|
                                    0 <= a < self.num_keys() && 0 <= k < self.buf_at(a)@.len()
                                    implies self.buf_at(a)@[k].ts() > c by {
                                    assert(suffix_rel(p0.buf_at(a), self.buf_at(a)));
                                    let c2 = choose|c2: int|
                                        {
                                            &&& 0 <= c2 <= p0.buf_at(a)@.len()
                                            &&& self.buf_at(a)@ == p0.buf_at(a)@.skip(c2)
                                            &&& self.buf_at(a).last_ts_spec() == p0.buf_at(
                                                a,
                                            ).last_ts_spec()
                                        };
                                    assert(self.buf_at(a)@[k] == p0.buf_at(a)@[k + c2]);
                                }
                            },
                            None => {},
                        }
                        assert(self.wf());
                        assert(total_of(self.buffers_spec()) <= total_of(s0.buffers_spec()));
                        assert(self.window_spec() == s0.window_spec());
                        // the pass computed exactly the spec-level trim, so
                        // the matching fixpoint is preserved
                        assert(self.views() =~= trim_all(p0.views(), ws)) by {
                            assert forall|j: int|
                                0 <= j < n implies self.views()[j] == trim_all(
                                p0.views(),
                                ws,
                            )[j] by {
                                assert(self.buf_at(j)@ == trim_front(p0.buf_at(j)@, ws));
                            }
                        }
                        assert forall|e: int|
                            0 <= e < p0.views().len() implies (
                        #[trigger] p0.views()[e]).len() > 0 by {
                            assert(p0.buf_at(e)@.len() > 0);
                        }
                        assert(!views_some_empty(p0.views()));
                        assert(views_fronts(p0.views()) =~= p0.fronts());
                        assert(views_backs(p0.views()) =~= p0.backs());
                    }
                    if dropped_any {
                        proof {
                            lemma_total_nonneg(self.buffers_spec());
                            assert(total_of(self.buffers_spec()) < total_of(
                                p0.buffers_spec(),
                            ));
                            assert(self.total_len() < p0.total_len());
                            // something was dropped, so the spec recursion
                            // steps to the trimmed streams
                            assert((self.views()[dropped_w]).len() < (p0.views()[
                                dropped_w
                            ]).len());
                            reveal(match_spec);
                            assert(p0.views().len() == p0.num_keys());
                            assert(trim_all(p0.views(), ws) != p0.views());
                            if views_all_one(p0.views()) {
                                assert(p0.all_one_spec()) by {
                                    assert forall|e: int|
                                        0 <= e < p0.num_keys() implies #[trigger] p0.buf_at(
                                        e,
                                    )@.len() == 1 by {
                                        assert((p0.views()[e]).len() == 1);
                                    }
                                }
                            }
                            assert(match_spec(p0.views(), s0.window_spec()) == match_spec(
                                self.views(),
                                s0.window_spec(),
                            ));
                        }
                        continue;
                    }
                    proof {
                        // nothing was dropped, so the state equals the
                        // pass-start state, every timestamp clears the
                        // window start, and the spec recursion emits here
                        assert(self.fronts() =~= p0.fronts());
                        assert(self.inf_spec() == inf);
                        assert(self.all_nonempty());
                        reveal(match_spec);
                        assert(p0.views().len() == p0.num_keys());
                        assert(self.views() =~= p0.views());
                        assert(trim_all(p0.views(), ws) == p0.views());
                        if views_all_one(p0.views()) {
                            assert(p0.all_one_spec()) by {
                                assert forall|e: int|
                                    0 <= e < p0.num_keys() implies #[trigger] p0.buf_at(
                                    e,
                                )@.len() == 1 by {
                                    assert((p0.views()[e]).len() == 1);
                                }
                            }
                        }
                        assert(match_spec(p0.views(), s0.window_spec()) == (
                            views_pop_fronts(p0.views()),
                            Some(views_group(p0.views())),
                        ));
                        assert(match_spec(s0.views(), s0.window_spec()) == (
                            views_pop_fronts(self.views()),
                            Some(views_group(self.views())),
                        ));
                    }
                    break;
                },
                None => {
                    proof {
                        assert(self.window_spec() == s0.window_spec());
                        assert(!s0.no_match_possible());
                        assert forall|e: int|
                            0 <= e < self.views().len() implies (
                        #[trigger] self.views()[e]).len() > 0 by {
                            assert(self.buf_at(e)@.len() > 0);
                        }
                        assert(!views_some_empty(self.views()));
                        reveal(match_spec);
                        assert(self.views().len() == self.num_keys());
                        assert(match_spec(self.views(), s0.window_spec()) == (
                            views_pop_fronts(self.views()),
                            Some(views_group(self.views())),
                        ));
                    }
                    break;
                },
            }
        }
        true
    }

    /// Pops the front message of every buffer, in key registration order,
    /// and advances the commit cursor to the popped minimum.
    #[verifier::rlimit(60)]
    #[verifier::spinoff_prover]
    fn pop_group(&mut self) -> (g: Vec<(K, T)>)
        requires
            old(self).wf(),
            old(self).all_nonempty(),
        ensures
            final(self).wf(),
            final(self).same_shape(old(self)),
            final(self).detector_spec() == old(self).detector_spec(),
            g@.len() == old(self).num_keys(),
            forall|j: int| 0 <= j < g@.len() ==> #[trigger] g@[j].0@ == old(self).key_at(j),
            forall|j: int| 0 <= j < g@.len() ==> #[trigger] g@[j].1 == old(self).buf_at(j)@[0],
            forall|j: int|
                0 <= j < old(self).num_keys() ==> #[trigger] final(self).buf_at(j)@ == old(self).buf_at(j)@.skip(1),
            forall|j: int|
                0 <= j < old(self).num_keys() ==> #[trigger] final(self).buf_at(
                    j,
                ).last_ts_spec() == old(self).buf_at(j).last_ts_spec(),
            group_ts(g@) == old(self).fronts(),
            final(self).views() == views_pop_fronts(old(self).views()),
            Seq::new(g@.len() as nat, |j: int| g@[j].1) == views_group(old(self).views()),
            final(self).commit_spec() == Some(seq_min(group_ts(g@))),
            old(self).commit_spec() matches Some(c) ==> seq_min(group_ts(g@)) > c,
            final(self).total_len() < old(self).total_len(),
    {
        let ghost mid = *self;
        let n = self.buffers.len();
        let mut g: Vec<(K, T)> = Vec::new();
        let mut min_ts: u64 = u64::MAX;
        let mut i: usize = 0;
        while i < n
            invariant
                mid == *old(self),
                mid.wf(),
                mid.all_nonempty(),
                n == mid.num_keys(),
                self.num_keys() == n,
                i <= n,
                self.commit_spec() == mid.commit_spec(),
                self.buf_size_spec() == mid.buf_size_spec(),
                self.window_spec() == mid.window_spec(),
                self.policy_spec() == mid.policy_spec(),
                self.detector_spec() == mid.detector_spec(),
                forall|j: int| 0 <= j < n ==> self.key_at(j) == mid.key_at(j),
                forall|j: int| i <= j < n ==> self.buf_at(j) == mid.buf_at(j),
                g@.len() == i,
                forall|j: int| 0 <= j < i ==> #[trigger] g@[j].0@ == mid.key_at(j),
                forall|j: int| 0 <= j < i ==> #[trigger] g@[j].1 == mid.buf_at(j)@[0],
                forall|j: int|
                    0 <= j < i ==> #[trigger] self.buf_at(j)@ == mid.buf_at(j)@.skip(1),
                forall|j: int|
                    0 <= j < i ==> #[trigger] self.buf_at(j).last_ts_spec() == mid.buf_at(
                        j,
                    ).last_ts_spec(),
                forall|j: int| 0 <= j < i ==> #[trigger] self.buf_at(j).wf(),
                i > 0 ==> min_ts == seq_min(group_ts(g@)),
                i == 0 ==> min_ts == u64::MAX,
            decreases n - i,
        {
            let ghost iter0 = *self;
            let ghost pre = self.buffers@;
            let (k0, mut b) = self.buffers.remove(i);
            proof {
                assert(b == mid.buf_at(i as int));
                assert(b.wf());
            }
            let popped = b.pop_front();
            match popped {
                Some(item) => {
                    let t = item.timestamp();
                    let kc = k0.key_clone();
                    self.buffers.insert(i, (k0, b));
                    proof {
                        assert(self.buffers@.len() == pre.len());
                        assert(self.buffers@[i as int].0 == pre[i as int].0);
                        assert(forall|j: int|
                            0 <= j < pre.len() && j != i ==> self.buffers@[j] == pre[j]);
                    }
                    let ghost g0 = g@;
                    let ghost gitem = item;
                    let ghost gkc = kc;
                    g.push((kc, item));
                    if t < min_ts {
                        min_ts = t;
                    }
                    proof {
                        assert(g@ =~= g0.push((gkc, gitem)));
                        assert(group_ts(g@).drop_last() =~= group_ts(g0));
                        assert(group_ts(g@).last() == gitem.ts());
                        if i == 0 {
                            assert(group_ts(g0) =~= Seq::<u64>::empty());
                            assert(seq_min(Seq::<u64>::empty()) == u64::MAX);
                        }
                        assert(min_ts == seq_min(group_ts(g@)));
                        assert forall|j: int|
                            0 <= j < i + 1 implies #[trigger] g@[j].0@ == mid.key_at(j) by {
                            if j < i {
                                assert(g@[j] == g0[j]);
                            }
                        }
                        assert forall|j: int|
                            0 <= j < i + 1 implies #[trigger] g@[j].1 == mid.buf_at(j)@[0] by {
                            if j < i {
                                assert(g@[j] == g0[j]);
                            }
                        }
                        assert forall|j: int|
                            0 <= j < i + 1 implies #[trigger] self.buf_at(j)@ == mid.buf_at(
                            j,
                        )@.skip(1) by {
                            if j < i {
                                assert(self.buf_at(j) == iter0.buf_at(j));
                            }
                        }
                        assert forall|j: int|
                            0 <= j < i + 1 implies #[trigger] self.buf_at(j).last_ts_spec()
                            == mid.buf_at(j).last_ts_spec() by {
                            if j < i {
                                assert(self.buf_at(j) == iter0.buf_at(j));
                            }
                        }
                        assert forall|j: int|
                            0 <= j < i + 1 implies #[trigger] self.buf_at(j).wf() by {
                            if j < i {
                                assert(self.buf_at(j) == iter0.buf_at(j));
                            }
                        }
                    }
                },
                None => {
                    proof {
                        assert(false);
                    }
                    self.buffers.insert(i, (k0, b));
                    return Vec::new();
                },
            }
            i = i + 1;
        }
        let ghost fin0 = *self;
        self.commit_ts = Some(min_ts);
        proof {
            assert(self.buffers_spec() == fin0.buffers_spec());
            assert forall|j: int|
                0 <= j < n implies #[trigger] self.buf_at(j)@ == mid.buf_at(j)@.skip(1) by {
                assert(self.buf_at(j) == fin0.buf_at(j));
                assert(fin0.buf_at(j)@ == mid.buf_at(j)@.skip(1));
            }
            assert forall|j: int|
                0 <= j < n implies #[trigger] self.buf_at(j).last_ts_spec() == mid.buf_at(
                j,
            ).last_ts_spec() by {
                assert(self.buf_at(j) == fin0.buf_at(j));
                assert(fin0.buf_at(j).last_ts_spec() == mid.buf_at(j).last_ts_spec());
            }
            assert forall|j: int| 0 <= j < n implies #[trigger] self.buf_at(j).wf() by {
                assert(self.buf_at(j) == fin0.buf_at(j));
                assert(fin0.buf_at(j).wf());
            }
            assert forall|j: int|
                0 <= j < n implies #[trigger] self.key_at(j) == mid.key_at(j) by {
                assert(self.key_at(j) == fin0.key_at(j));
            }
            lemma_seq_min(group_ts(g@));
            assert forall|j: int|
                0 <= j < n implies group_ts(g@)[j] == mid.fronts()[j] by {
                assert(g@[j].0@ == mid.key_at(j) && g@[j].1 == mid.buf_at(j)@[0]);
            }
            assert(group_ts(g@) =~= mid.fronts());
            let wmin = choose|wmin: int|
                0 <= wmin < group_ts(g@).len() && group_ts(g@)[wmin] == seq_min(group_ts(g@));
            // the new commit cursor sits strictly above the old one
            match mid.commit_spec() {
                Some(c) => {
                    assert(g@[wmin].0@ == mid.key_at(wmin) && g@[wmin].1 == mid.buf_at(
                        wmin,
                    )@[0]);
                    assert(mid.buf_at(wmin)@[0].ts() > c);
                },
                None => {},
            }
            // well-formedness of the final state
            assert forall|a: int, k: int|
                0 <= a < self.num_keys() && 0 <= k < self.buf_at(a)@.len() implies self.buf_at(
                a,
            )@[k].ts() > min_ts by {
                assert(self.buf_at(a)@ == mid.buf_at(a)@.skip(1));
                assert(mid.buf_at(a).wf());
                assert(self.buf_at(a)@[k] == mid.buf_at(a)@[k + 1]);
                assert(mid.buf_at(a)@[0].ts() < mid.buf_at(a)@[k + 1].ts());
                assert(g@[a].0@ == mid.key_at(a) && g@[a].1 == mid.buf_at(a)@[0]);
                assert(mid.buf_at(a)@[0].ts() == group_ts(g@)[a]);
                assert(group_ts(g@)[a] >= min_ts);
            }
            assert forall|a: int, b2: int|
                0 <= a < b2 < self.num_keys() implies self.key_at(a) != self.key_at(b2) by {
                assert(self.key_at(a) == mid.key_at(a));
                assert(self.key_at(b2) == mid.key_at(b2));
            }
            // the total shrank: every buffer lost its front
            let mid2 = mid.buffers_spec().update(0, self.buffers_spec()[0]);
            lemma_total_update(mid.buffers_spec(), 0, self.buffers_spec()[0]);
            assert(n > 0);
            assert(self.buf_at(0)@ == mid.buf_at(0)@.skip(1));
            assert(self.buf_at(0)@.len() == mid.buf_at(0)@.len() - 1);
            assert(total_of(mid2) == total_of(mid.buffers_spec()) - 1);
            assert forall|j: int|
                0 <= j < n implies self.buffers_spec()[j].1@.len() <= mid2[j].1@.len() by {
                if j != 0 {
                    assert(mid2[j] == mid.buffers_spec()[j]);
                    assert(self.buf_at(j)@ == mid.buf_at(j)@.skip(1));
                    assert(self.buf_at(j)@.len() == mid.buf_at(j)@.len() - 1);
                }
            }
            lemma_total_pointwise(self.buffers_spec(), mid2);
            assert(self.views() =~= views_pop_fronts(mid.views()));
            assert(Seq::new(g@.len() as nat, |j: int| g@[j].1) =~= views_group(mid.views()));
        }
        g
    }

    /// Tries to form a synchronized group: one message per stream, popped
    /// from the buffer fronts, in key registration order.
    ///
    /// With a finite window the matcher first insists that the spread
    /// between the latest front (`inf`) and the earliest back (`sup`) covers
    /// the window — unless every buffer holds exactly one message, when the
    /// spread check is vacuous — and drops messages older than `inf` minus
    /// the window; dropping re-evaluates the bounds.  On success the commit
    /// cursor advances to the minimum timestamp of the emitted group, which
    /// is strictly above its previous position, and with a finite window the
    /// group's spread is at most the window.  `None` is returned only when a
    /// buffer ran empty or the spread check failed.
    #[verifier::rlimit(60)]
    #[verifier::spinoff_prover]
    pub fn try_match(&mut self) -> (r: Option<Vec<(K, T)>>)
        requires
            old(self).wf(),
        ensures
            final(self).wf(),
            final(self).same_shape(old(self)),
            final(self).detector_spec() == old(self).detector_spec(),
            forall|i: int|
                0 <= i < old(self).num_keys() ==> suffix_rel(
                    old(self).buf_at(i),
                    final(self).buf_at(i),
                ),
            try_match_post(*old(self), *final(self), r),
            old(self).no_match_possible() ==> r is None && *final(self) == *old(self),
            final(self).views() == match_spec(old(self).views(), old(self).window_spec()).0,
            match r {
                Some(g) => match_spec(old(self).views(), old(self).window_spec()).1 == Some(
                    Seq::new(g@.len() as nat, |j: int| g@[j].1),
                ),
                None => match_spec(old(self).views(), old(self).window_spec()).1 is None,
            },
    {
        let ghost s0 = *self;
        if !self.trim_to_window() {
            return None;
        }
        let ghost mid = *self;
        let g = self.pop_group();
        proof {
            lemma_seq_min(group_ts(g@));
            lemma_seq_max(group_ts(g@));
            // group spread: the group's timestamps are the fronts after the
            // trim, all of which lie within the window below `inf`
            match s0.window_spec() {
                Some(d) => {
                    let wmin = choose|wmin: int|
                        0 <= wmin < group_ts(g@).len() && group_ts(g@)[wmin] == seq_min(
                            group_ts(g@),
                        );
                    let wmax = choose|wmax: int|
                        0 <= wmax < group_ts(g@).len() && group_ts(g@)[wmax] == seq_max(
                            group_ts(g@),
                        );
                    assert(group_ts(g@)[wmin] == mid.fronts()[wmin]);
                    assert(mid.buf_at(wmin)@[0].ts() >= sat_sub(mid.inf_spec(), d));
                    assert(seq_min(group_ts(g@)) >= sat_sub(mid.inf_spec(), d));
                    lemma_seq_max(mid.fronts());
                    assert(group_ts(g@) == mid.fronts());
                    assert(seq_max(group_ts(g@)) <= mid.inf_spec());
                },
                None => {},
            }
            assert forall|j: int|
                0 <= j < s0.num_keys() implies suffix_rel(
                s0.buf_at(j),
                #[trigger] self.buf_at(j),
            ) by {
                assert(suffix_rel(s0.buf_at(j), mid.buf_at(j)));
                let c1 = choose|c1: int|
                    {
                        &&& 0 <= c1 <= s0.buf_at(j)@.len()
                        &&& mid.buf_at(j)@ == s0.buf_at(j)@.skip(c1)
                        &&& mid.buf_at(j).last_ts_spec() == s0.buf_at(j).last_ts_spec()
                    };
                assert(self.buf_at(j)@ == mid.buf_at(j)@.skip(1));
                assert(self.buf_at(j)@ =~= s0.buf_at(j)@.skip(c1 + 1));
            }
            // the emitted fronts are exactly what the matching fixpoint names
            assert(match_spec(s0.views(), s0.window_spec()) == (
                views_pop_fronts(mid.views()),
                Some(views_group(mid.views())),
            ));
            assert(self.views() == views_pop_fronts(mid.views()));
            assert(Seq::new(g@.len() as nat, |j: int| g@[j].1) == views_group(mid.views()));
        }
        Some(g)
    }
}

/// The key views of the buffers that still have room, in order.
pub open spec fn accepted_views<K: Key, T>(s: Seq<(K, Buffer<T>)>, cap: usize) -> Seq<K::V>
    decreases s.len(),
{
    if s.len() == 0 {
        Seq::empty()
    } else {
        let p = accepted_views(s.drop_last(), cap);
        if s.last().1@.len() < cap {
            p.push(s.last().0@)
        } else {
            p
        }
    }
}

/// The least front timestamp among the non-empty buffers of `s`, if any.
pub open spec fn min_front_of<K, T: WithTimestamp>(s: Seq<(K, Buffer<T>)>) -> Option<u64>
    decreases s.len(),
{
    if s.len() == 0 {
        None
    } else {
        let p = min_front_of(s.drop_last());
        if s.last().1@.len() == 0 {
            p
        } else {
            match p {
                Some(q) => if s.last().1@[0].ts() < q {
                    Some(s.last().1@[0].ts())
                } else {
                    Some(q)
                },
                None => Some(s.last().1@[0].ts()),
            }
        }
    }
}

/// `min_front_of` is `None` exactly when every buffer is empty, and is
/// otherwise attained and a lower bound on the non-empty fronts.
pub proof fn lemma_min_front_of<K, T: WithTimestamp>(s: Seq<(K, Buffer<T>)>)
    ensures
        min_front_of(s) is None ==> forall|i: int|
            0 <= i < s.len() ==> #[trigger] s[i].1@.len() == 0,
        min_front_of(s) matches Some(m) ==> {
            &&& exists|i: int|
                0 <= i < s.len() && #[trigger] s[i].1@.len() > 0 && s[i].1@[0].ts() == m
            &&& forall|i: int|
                0 <= i < s.len() && #[trigger] s[i].1@.len() > 0 ==> s[i].1@[0].ts() >= m
        },
    decreases s.len(),
{
    if s.len() > 0 {
        lemma_min_front_of(s.drop_last());
        assert(forall|i: int| 0 <= i < s.len() - 1 ==> s[i] == s.drop_last()[i]);
        match min_front_of(s) {
            Some(m) => {
                if s.last().1@.len() > 0 && s.last().1@[0].ts() == m {
                    assert(s[s.len() - 1].1@.len() > 0 && s[s.len() - 1].1@[0].ts() == m);
                } else {
                    match min_front_of(s.drop_last()) {
                        Some(q) => {
                            if q == m {
                                let w = choose|i: int|
                                    0 <= i < s.drop_last().len() && #[trigger] s.drop_last()[
                                        i
                                    ].1@.len() > 0 && s.drop_last()[i].1@[0].ts() == q;
                                assert(s[w].1@.len() > 0 && s[w].1@[0].ts() == m);
                            }
                        },
                        None => {},
                    }
                }
            },
            None => {},
        }
    }
}

/// Total number of messages across the buffers of `s`.
pub open spec fn total_of<K, T>(s: Seq<(K, Buffer<T>)>) -> int
    decreases s.len(),
{
    if s.len() == 0 {
        0
    } else {
        total_of(s.drop_last()) + s.last().1@.len()
    }
}

/// The key views of `s` with duplicates after the first occurrence removed.
pub open spec fn dedup_views<K: Key>(s: Seq<K::V>) -> Seq<K::V>
    decreases s.len(),
{
    if s.len() == 0 {
        Seq::empty()
    } else {
        let p = dedup_views::<K>(s.drop_last());
        if p.contains(s.last()) {
            p
        } else {
            p.push(s.last())
        }
    }
}

} // verus!
