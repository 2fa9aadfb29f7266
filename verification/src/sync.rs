//! The synchronizer facade.
//!
//! `Synchronizer` wraps the matching state behind a validated constructor
//! and a push/poll/drain interface, and carries the emission history as a
//! ghost record: the minimum timestamp of every emitted group, which is
//! proven non-decreasing.

use vstd::prelude::*;

use crate::config::Config;
use crate::state::{
    group_ts, push_post, try_match_post, PushError, State,
};
use crate::staleness::StalenessDetector;
use crate::types::{non_decreasing, seq_max, seq_min, Key, WithTimestamp};

verus! {

/// Why a synchronizer could not be built.
#[derive(Debug)]
pub enum SyncError {
    /// No keys were given.
    NoKeys,
    /// The per-stream capacity is below two.
    BufferTooSmall,
    /// A window of zero length was given.
    ZeroWindow,
    /// A staleness configuration with no usable timer wheel was given.
    BadStalenessConfig,
}

/// A synchronization session over a fixed set of streams.
pub struct Synchronizer<K, T> {
    state: State<K, T>,
    emitted: Ghost<Seq<u64>>,
}

impl<K: Key, T: WithTimestamp> Synchronizer<K, T> {
    /// The underlying matching state.
    pub closed spec fn state_spec(&self) -> State<K, T> {
        self.state
    }

    /// The minimum timestamps of the groups emitted so far, oldest first.
    pub closed spec fn emitted_spec(&self) -> Seq<u64> {
        self.emitted@
    }

    /// Well-formedness: the state is well-formed, the emission history is
    /// non-decreasing, and the commit cursor sits at or above the last
    /// emitted minimum.
    pub open spec fn wf(&self) -> bool {
        &&& self.state_spec().wf()
        &&& non_decreasing(self.emitted_spec())
        &&& (self.emitted_spec().len() > 0 ==> match self.state_spec().commit_spec() {
            Some(c) => self.emitted_spec().last() <= c,
            None => false,
        })
    }

    /// Builds a session: `keys` must be non-empty, the capacity at least
    /// two, the window (if any) positive and the staleness configuration
    /// (if any) usable.  `now` anchors the staleness detector's timer wheel.
    pub fn new(keys: Vec<K>, config: Config, now: u64) -> (r: Result<Self, SyncError>)
        ensures
            match r {
                Ok(s) => {
                    &&& keys@.len() > 0
                    &&& config.valid()
                    &&& s.wf()
                    &&& s.emitted_spec().len() == 0
                    &&& s.state_spec().commit_spec() == config.start_time
                    &&& s.state_spec().buf_size_spec() == config.buf_size
                    &&& s.state_spec().window_spec() == config.window_size
                    &&& s.state_spec().policy_spec() == config.drop_policy
                    &&& Seq::new(
                        s.state_spec().num_keys() as nat,
                        |i: int| s.state_spec().key_at(i),
                    ) == crate::state::dedup_views::<K>(keys@.map_values(|k: K| k@))
                    &&& (forall|i: int|
                        0 <= i < s.state_spec().num_keys()
                            ==> #[trigger] s.state_spec().buf_at(i)@.len() == 0)
                    &&& (forall|i: int|
                        0 <= i < s.state_spec().num_keys()
                            ==> #[trigger] s.state_spec().buf_at(i).last_ts_spec() is None)
                    &&& (s.state_spec().detector_spec() is Some <==> config.staleness_config
                        is Some)
                },
                Err(e) => match e {
                    SyncError::NoKeys => keys@.len() == 0,
                    SyncError::BufferTooSmall => config.buf_size < 2,
                    SyncError::ZeroWindow => config.window_size == Some(0u64),
                    SyncError::BadStalenessConfig => {
                        &&& config.staleness_config matches Some(c)
                        &&& !c.wf()
                    },
                },
            },
    {
        if keys.len() == 0 {
            return Err(SyncError::NoKeys);
        }
        if config.buf_size < 2 {
            return Err(SyncError::BufferTooSmall);
        }
        match config.window_size {
            Some(w) if w == 0 => {
                return Err(SyncError::ZeroWindow);
            },
            _ => {},
        }
        let detector = match config.staleness_config {
            Some(sc) => {
                if sc.timer_wheel_slots == 0 || sc.timer_wheel_slot_duration == 0 {
                    return Err(SyncError::BadStalenessConfig);
                }
                Some(StalenessDetector::new(sc, now))
            },
            None => None,
        };
        let state = State::new(
            keys,
            config.buf_size,
            config.window_size,
            config.drop_policy,
            config.start_time,
            detector,
        );
        Ok(Synchronizer { state, emitted: Ghost(Seq::empty()) })
    }

    /// Inserts a message; see `State::push` for the full case analysis.
    /// `now` is the caller's clock reading, used only to register the
    /// message with the staleness detector.
    pub fn push(&mut self, key: K, item: T, now: u64) -> (r: Result<(), PushError<T>>)
        requires
            old(self).wf(),
        ensures
            final(self).wf(),
            final(self).emitted_spec() == old(self).emitted_spec(),
            final(self).state_spec().same_shape(&old(self).state_spec()),
            final(self).state_spec().commit_spec() == old(self).state_spec().commit_spec(),
            push_post(old(self).state_spec(), final(self).state_spec(), key, item, now, r),
    {
        self.state.push(key, item, now)
    }

    /// Tries to emit one synchronized group; see `State::try_match`.  On
    /// success the group's minimum timestamp is appended to the emission
    /// history, which stays non-decreasing: successive groups come in
    /// non-decreasing order of their minimum timestamps.
    pub fn poll(&mut self) -> (r: Option<Vec<(K, T)>>)
        requires
            old(self).wf(),
        ensures
            final(self).wf(),
            final(self).state_spec().same_shape(&old(self).state_spec()),
            try_match_post(old(self).state_spec(), final(self).state_spec(), r),
            final(self).state_spec().views() == crate::state::match_spec(
                old(self).state_spec().views(),
                old(self).state_spec().window_spec(),
            ).0,
            match r {
                Some(g) => {
                    &&& crate::state::match_spec(
                        old(self).state_spec().views(),
                        old(self).state_spec().window_spec(),
                    ).1 == Some(Seq::new(g@.len() as nat, |j: int| g@[j].1))
                    &&& final(self).emitted_spec() == old(self).emitted_spec().push(
                        seq_min(group_ts(g@)),
                    )
                    &&& non_decreasing(final(self).emitted_spec())
                },
                None => {
                    &&& crate::state::match_spec(
                        old(self).state_spec().views(),
                        old(self).state_spec().window_spec(),
                    ).1 is None
                    &&& final(self).emitted_spec() == old(self).emitted_spec()
                },
            },
    {
        let r = self.state.try_match();
        match &r {
            Some(g) => {
                proof {
                    let m = seq_min(group_ts(g@));
                    let prev = self.emitted@;
                    self.emitted@ = self.emitted@.push(m);
                    assert forall|a: int, b: int|
                        0 <= a <= b < self.emitted@.len() implies self.emitted@[a]
                        <= self.emitted@[b] by {
                        if b < prev.len() {
                            assert(self.emitted@[a] == prev[a] && self.emitted@[b] == prev[b]);
                        } else {
                            if a < prev.len() {
                                assert(self.emitted@[a] == prev[a]);
                                assert(prev[a] <= prev.last());
                            }
                        }
                    }
                }
            },
            None => {},
        }
        r
    }

    /// Emits every group that can be formed right now, in order, stopping
    /// only when no further group can form: a buffer ran empty, or the
    /// spread no longer covers the finite window.
    pub fn drain(&mut self) -> (groups: Vec<Vec<(K, T)>>)
        requires
            old(self).wf(),
        ensures
            final(self).wf(),
            final(self).emitted_spec().len() == old(self).emitted_spec().len()
                + groups@.len(),
            non_decreasing(final(self).emitted_spec()),
            forall|i: int|
                0 <= i < groups@.len() ==> #[trigger] groups@[i].len()
                    == final(self).state_spec().num_keys(),
            forall|i: int, j: int|
                0 <= i < groups@.len() && 0 <= j < groups@[i]@.len()
                    ==> #[trigger] groups@[i]@[j].0@ == final(self).state_spec().key_at(j),
            old(self).state_spec().window_spec() matches Some(d) ==> forall|i: int|
                0 <= i < groups@.len() ==> seq_max(group_ts(#[trigger] groups@[i]@))
                    <= crate::types::sat_add(seq_min(group_ts(groups@[i]@)), d),
            final(self).state_spec().views() == crate::state::drain_spec(
                old(self).state_spec().views(),
                old(self).state_spec().window_spec(),
            ).0,
            Seq::new(
                groups@.len() as nat,
                |i: int| Seq::new(groups@[i]@.len() as nat, |j: int| groups@[i]@[j].1),
            ) == crate::state::drain_spec(
                old(self).state_spec().views(),
                old(self).state_spec().window_spec(),
            ).1,
            final(self).state_spec().some_empty_spec() || {
                &&& final(self).state_spec().window_spec() is Some
                &&& !final(self).state_spec().all_one_spec()
                &&& final(self).state_spec().all_nonempty()
                &&& crate::types::sat_add(
                    final(self).state_spec().inf_spec(),
                    final(self).state_spec().window_spec()->0,
                ) > final(self).state_spec().sup_spec()
            },
    {
        let mut groups: Vec<Vec<(K, T)>> = Vec::new();
        let ghost mut done: Seq<Seq<T>> = Seq::empty();
        proof {
            assert(done + crate::state::drain_spec(
                self.state_spec().views(),
                self.state_spec().window_spec(),
            ).1 =~= crate::state::drain_spec(
                self.state_spec().views(),
                self.state_spec().window_spec(),
            ).1);
        }
        loop
            invariant
                self.wf(),
                self.state_spec().num_keys() == old(self).state_spec().num_keys(),
                self.state_spec().window_spec() == old(self).state_spec().window_spec(),
                forall|j: int|
                    0 <= j < self.state_spec().num_keys()
                        ==> #[trigger] self.state_spec().key_at(j) == old(
                        self,
                    ).state_spec().key_at(j),
                self.emitted_spec().len() == old(self).emitted_spec().len() + groups@.len(),
                forall|i: int|
                    0 <= i < groups@.len() ==> #[trigger] groups@[i].len()
                        == self.state_spec().num_keys(),
                forall|i: int, j: int|
                    0 <= i < groups@.len() && 0 <= j < groups@[i]@.len()
                        ==> #[trigger] groups@[i]@[j].0@ == old(self).state_spec().key_at(j),
                old(self).state_spec().window_spec() matches Some(d) ==> forall|i: int|
                    0 <= i < groups@.len() ==> seq_max(group_ts(#[trigger] groups@[i]@))
                        <= crate::types::sat_add(seq_min(group_ts(groups@[i]@)), d),
                done == Seq::new(
                    groups@.len() as nat,
                    |i: int| Seq::new(groups@[i]@.len() as nat, |j: int| groups@[i]@[j].1),
                ),
                crate::state::drain_spec(
                    old(self).state_spec().views(),
                    old(self).state_spec().window_spec(),
                ) == {
                    let rest = crate::state::drain_spec(
                        self.state_spec().views(),
                        self.state_spec().window_spec(),
                    );
                    (rest.0, done + rest.1)
                },
            ensures
                self.wf(),
                self.state_spec().num_keys() == old(self).state_spec().num_keys(),
                self.state_spec().window_spec() == old(self).state_spec().window_spec(),
                forall|j: int|
                    0 <= j < self.state_spec().num_keys()
                        ==> #[trigger] self.state_spec().key_at(j) == old(
                        self,
                    ).state_spec().key_at(j),
                self.emitted_spec().len() == old(self).emitted_spec().len() + groups@.len(),
                forall|i: int|
                    0 <= i < groups@.len() ==> #[trigger] groups@[i].len()
                        == self.state_spec().num_keys(),
                forall|i: int, j: int|
                    0 <= i < groups@.len() && 0 <= j < groups@[i]@.len()
                        ==> #[trigger] groups@[i]@[j].0@ == old(self).state_spec().key_at(j),
                old(self).state_spec().window_spec() matches Some(d) ==> forall|i: int|
                    0 <= i < groups@.len() ==> seq_max(group_ts(#[trigger] groups@[i]@))
                        <= crate::types::sat_add(seq_min(group_ts(groups@[i]@)), d),
                done == Seq::new(
                    groups@.len() as nat,
                    |i: int| Seq::new(groups@[i]@.len() as nat, |j: int| groups@[i]@[j].1),
                ),
                crate::state::drain_spec(
                    old(self).state_spec().views(),
                    old(self).state_spec().window_spec(),
                ) == (self.state_spec().views(), done),
                self.state_spec().some_empty_spec() || {
                    &&& self.state_spec().window_spec() is Some
                    &&& !self.state_spec().all_one_spec()
                    &&& self.state_spec().all_nonempty()
                    &&& crate::types::sat_add(
                        self.state_spec().inf_spec(),
                        self.state_spec().window_spec()->0,
                    ) > self.state_spec().sup_spec()
                },
            decreases self.state_spec().total_len() + 1,
        {
            proof {
                crate::state::lemma_state_total_nonneg(self.state_spec());
            }
            let ghost pre_state = self.state_spec();
            let ghost pre_groups = groups@;
            let ghost pre_done = done;
            match self.poll() {
                Some(g) => {
                    proof {
                        crate::state::lemma_state_total_nonneg(self.state_spec());
                        assert(self.state_spec().total_len() < pre_state.total_len());
                    }
                    let ghost gg = g@;
                    let ghost gview = Seq::new(g@.len() as nat, |j: int| g@[j].1);
                    groups.push(g);
                    proof {
                        done = pre_done.push(gview);
                        assert(done =~= Seq::new(
                            groups@.len() as nat,
                            |i: int| Seq::new(
                                groups@[i]@.len() as nat,
                                |j: int| groups@[i]@[j].1,
                            ),
                        )) by {
                            assert forall|i: int|
                                0 <= i < groups@.len() implies done[i] =~= Seq::new(
                                groups@[i]@.len() as nat,
                                |j: int| groups@[i]@[j].1,
                            ) by {
                                if i < pre_groups.len() {
                                    assert(groups@[i] == pre_groups[i]);
                                    assert(done[i] == pre_done[i]);
                                } else {
                                    assert(groups@[i]@ == gg);
                                    assert(done[i] == gview);
                                }
                            }
                        }
                        // one fixpoint step peeled off the drain recursion
                        reveal(crate::state::drain_spec);
                        assert(crate::state::match_spec(
                            pre_state.views(),
                            pre_state.window_spec(),
                        ) == (self.state_spec().views(), Some(gview)));
                        assert(crate::state::drain_spec(
                            pre_state.views(),
                            pre_state.window_spec(),
                        ).1 =~= seq![gview] + crate::state::drain_spec(
                            self.state_spec().views(),
                            self.state_spec().window_spec(),
                        ).1);
                        assert(pre_done + (seq![gview] + crate::state::drain_spec(
                            self.state_spec().views(),
                            self.state_spec().window_spec(),
                        ).1) =~= done + crate::state::drain_spec(
                            self.state_spec().views(),
                            self.state_spec().window_spec(),
                        ).1);
                        assert forall|i: int, j: int|
                            0 <= i < groups@.len() && 0 <= j < groups@[i]@.len() implies
                            #[trigger] groups@[i]@[j].0@ == old(self).state_spec().key_at(
                            j,
                        ) by {
                            if i < pre_groups.len() {
                                assert(groups@[i] == pre_groups[i]);
                                assert(pre_groups[i]@[j].0@ == old(self).state_spec().key_at(
                                    j,
                                ));
                            } else {
                                assert(groups@[i]@ == gg);
                                assert(gg[j].0@ == pre_state.key_at(j));
                                assert(pre_state.key_at(j) == old(self).state_spec().key_at(
                                    j,
                                ));
                            }
                        }
                        match old(self).state_spec().window_spec() {
                            Some(d) => {
                                assert forall|i: int|
                                    0 <= i < groups@.len() implies seq_max(
                                    group_ts(#[trigger] groups@[i]@),
                                ) <= crate::types::sat_add(
                                    seq_min(group_ts(groups@[i]@)),
                                    d,
                                ) by {
                                    if i < pre_groups.len() {
                                        assert(groups@[i] == pre_groups[i]);
                                    } else {
                                        assert(groups@[i]@ == gg);
                                        assert(pre_state.window_spec() == Some(d));
                                    }
                                }
                            },
                            None => {},
                        }
                    }
                },
                None => {
                    proof {
                        reveal(crate::state::drain_spec);
                        assert(crate::state::match_spec(
                            pre_state.views(),
                            pre_state.window_spec(),
                        ).1 is None);
                        crate::state::lemma_match_spec_none_fixed(
                            pre_state.views(),
                            pre_state.window_spec(),
                        );
                        assert(crate::state::match_spec(
                            self.state_spec().views(),
                            self.state_spec().window_spec(),
                        ) == (self.state_spec().views(), None::<Seq<T>>));
                        assert(crate::state::drain_spec(
                            self.state_spec().views(),
                            self.state_spec().window_spec(),
                        ) == (self.state_spec().views(), Seq::<Seq<T>>::empty()));
                        assert(crate::state::drain_spec(
                            pre_state.views(),
                            pre_state.window_spec(),
                        ) == (self.state_spec().views(), Seq::<Seq<T>>::empty()));
                        assert(done + Seq::<Seq<T>>::empty() =~= done);
                    }
                    break;
                },
            }
        }
        proof {
            assert forall|i: int, j: int|
                0 <= i < groups@.len() && 0 <= j < groups@[i]@.len() implies
                #[trigger] groups@[i]@[j].0@ == self.state_spec().key_at(j) by {
                assert(groups@[i]@[j].0@ == old(self).state_spec().key_at(j));
                assert(groups@[i]@.len() == groups@[i].len());
                assert(j < self.state_spec().num_keys());
                assert(self.state_spec().key_at(j) == old(self).state_spec().key_at(j));
            }
        }
        groups
    }

    /// Whether every buffer is at capacity.
    pub fn is_full(&self) -> (r: bool)
        ensures
            r == self.state_spec().full_spec(),
    {
        self.state.is_full()
    }

    /// Removes the message with the least timestamp among the buffer
    /// fronts; see `State::drop_min`.  The emission history is unchanged.
    pub fn drop_min(&mut self) -> (r: bool)
        requires
            old(self).wf(),
        ensures
            final(self).wf(),
            final(self).emitted_spec() == old(self).emitted_spec(),
            final(self).state_spec().same_shape(&old(self).state_spec()),
            final(self).state_spec().commit_spec() == old(self).state_spec().commit_spec(),
            !r ==> final(self).state_spec() == old(self).state_spec(),
            !r ==> final(self).state_spec().total_len() == old(self).state_spec().total_len(),
            r ==> final(self).state_spec().total_len() < old(self).state_spec().total_len(),
            !r ==> (forall|i: int|
                0 <= i < old(self).state_spec().num_keys() ==> #[trigger] old(self).state_spec().buf_at(i)@.len() == 0),
    {
        self.state.drop_min()
    }

    /// Sweeps every buffer's front for messages whose own timeout has
    /// elapsed; see `State::drop_expired_messages`.
    pub fn drop_expired_messages(&mut self, reference_timestamp: u64) -> (r: usize)
        requires
            old(self).wf(),
        ensures
            final(self).wf(),
            final(self).emitted_spec() == old(self).emitted_spec(),
            final(self).state_spec().same_shape(&old(self).state_spec()),
            final(self).state_spec().commit_spec() == old(self).state_spec().commit_spec(),
            final(self).state_spec().detector_spec() == old(self).state_spec().detector_spec(),
            final(self).state_spec().total_len() <= old(self).state_spec().total_len(),
            forall|i: int|
                0 <= i < old(self).state_spec().num_keys() ==> crate::state::expired_rel(
                    old(self).state_spec().buf_at(i),
                    final(self).state_spec().buf_at(i),
                    reference_timestamp,
                ),
    {
        let ghost pre = self.state;
        let r = self.state.drop_expired_messages(reference_timestamp);
        proof {
            crate::state::lemma_state_total_nonneg(self.state);
            if r < usize::MAX {
                assert(pre.total_len() - self.state.total_len() == r);
            }
            assert(self.state.total_len() <= pre.total_len()) by {
                if pre.total_len() < self.state.total_len() {
                    assert(crate::staleness::clamp_usize(
                        pre.total_len() - self.state.total_len(),
                    ) < 0);
                }
            }
        }
        r
    }

    /// Drains the staleness detector and prunes matching buffer fronts; see
    /// `State::process_staleness_expiration`.
    pub fn process_staleness_expiration(&mut self, now: u64) -> (r: usize)
        requires
            old(self).wf(),
        ensures
            final(self).wf(),
            final(self).emitted_spec() == old(self).emitted_spec(),
            final(self).state_spec().same_shape(&old(self).state_spec()),
            final(self).state_spec().commit_spec() == old(self).state_spec().commit_spec(),
            final(self).state_spec().total_len() <= old(self).state_spec().total_len(),
            old(self).state_spec().detector_spec() is None ==> final(self).state_spec() == old(self).state_spec(),
            old(self).state_spec().detector_spec() is Some ==> final(self).state_spec().detector_spec() is Some && final(self).state_spec().detector_spec()->0.no_expired(now),
            old(self).state_spec().detector_spec() matches Some(det) ==> forall|i: int|
                0 <= i < old(self).state_spec().num_keys()
                    ==> crate::state::staleness_pruned::<K, T>(
                    old(self).state_spec().buf_at(i),
                    final(self).state_spec().buf_at(i),
                    #[trigger] old(self).state_spec().key_at(i),
                    det.expired_payload(now),
                ),
    {
        let ghost pre = self.state;
        let r = self.state.process_staleness_expiration(now);
        proof {
            crate::state::lemma_state_total_nonneg(self.state);
            assert(self.state.total_len() <= pre.total_len()) by {
                if pre.total_len() < self.state.total_len() {
                    assert(crate::staleness::clamp_usize(
                        pre.total_len() - self.state.total_len(),
                    ) < 0);
                }
            }
        }
        r
    }

    /// A pacing snapshot; see `State::feedback`.
    pub fn feedback(&self) -> (r: crate::types::Feedback<K>)
        ensures
            r.commit_timestamp == self.state_spec().commit_spec(),
            r.accepted_max_timestamp is None,
            r.accepted_keys@.map_values(|k: K| k@) == crate::state::accepted_views(
                self.state_spec().buffers_spec(),
                self.state_spec().buf_size_spec(),
            ),
    {
        self.state.feedback()
    }

    /// Number of registered streams.
    pub fn key_count(&self) -> (n: usize)
        ensures
            n == self.state_spec().num_keys(),
    {
        self.state.key_count()
    }

    /// Whether every buffer holds at least two messages.
    pub fn is_ready(&self) -> (r: bool)
        ensures
            r == self.state_spec().ready_spec(),
    {
        self.state.is_ready()
    }

    /// Whether some buffer is empty.
    pub fn is_empty(&self) -> (r: bool)
        ensures
            r == self.state_spec().some_empty_spec(),
    {
        self.state.is_empty()
    }

    /// Number of buffered messages for `key`; zero for an unknown key.
    pub fn buffer_len(&self, key: &K) -> (n: usize)
        ensures
            (forall|i: int|
                0 <= i < self.state_spec().num_keys()
                    ==> #[trigger] self.state_spec().key_at(i) != key@) ==> n == 0,
            (exists|i: int|
                0 <= i < self.state_spec().num_keys() && #[trigger] self.state_spec().key_at(i)
                    == key@) ==> exists|i: int|
                0 <= i < self.state_spec().num_keys() && #[trigger] self.state_spec().key_at(i)
                    == key@ && n == self.state_spec().buf_at(i)@.len(),
    {
        let n = self.state.buffer_len(key);
        proof {
            if forall|i: int|
                0 <= i < self.state_spec().num_keys()
                    ==> #[trigger] self.state_spec().key_at(i) != key@ {
                assert forall|i: int|
                    0 <= i < self.state.num_keys() implies self.state.key_at(i) != key@ by {
                    assert(self.state_spec().key_at(i) != key@);
                }
            }
            if exists|i: int|
                0 <= i < self.state_spec().num_keys() && #[trigger] self.state_spec().key_at(i)
                    == key@ {
                let w0 = choose|i: int|
                    0 <= i < self.state_spec().num_keys()
                        && #[trigger] self.state_spec().key_at(i) == key@;
                assert(self.state.key_at(w0) == key@);
                let w = choose|i: int|
                    0 <= i < self.state.num_keys() && self.state.key_at(i) == key@
                        && n == self.state.buf_at(i)@.len();
                assert(self.state_spec().key_at(w) == key@ && n == self.state_spec().buf_at(
                    w,
                )@.len());
            }
        }
        n
    }

    /// The commit cursor.
    pub fn commit_timestamp(&self) -> (r: Option<u64>)
        ensures
            r == self.state_spec().commit_spec(),
    {
        self.state.commit_timestamp()
    }
}

/// Successively emitted groups come in non-decreasing order of their minimum
/// timestamps: the emission history of a well-formed synchronizer is sorted,
/// so any earlier group's minimum is at most any later group's minimum.
pub proof fn lemma_emitted_minima_non_decreasing<K: Key, T: WithTimestamp>(
    s: Synchronizer<K, T>,
    a: int,
    b: int,
)
    requires
        s.wf(),
        0 <= a <= b < s.emitted_spec().len(),
    ensures
        s.emitted_spec()[a] <= s.emitted_spec()[b],
{
}

} // verus!
