//! The event-loop decision machine.
//!
//! An asynchronous host owns the input stream; the driver owns the
//! synchronizer and decides, from its state alone, whether the host should
//! pull one more event, emit a group, or finish.  Every decision — filling
//! until the spread check is informative, sacrificing the minimum front when
//! all buffers are full, and draining after the input ends — is made here,
//! in verified code; the host only performs the I/O it is told to.

use vstd::prelude::*;

use crate::config::Config;
use crate::state::{group_ts, push_post, PushError};
use crate::sync::{SyncError, Synchronizer};
use crate::types::{non_decreasing, seq_max, seq_min, Key, WithTimestamp};

verus! {

/// What the host must do next.
pub enum DriverStep<K, T> {
    /// Pull one event from the input and hand it to `feed` (or call
    /// `end_of_input` if the input is exhausted), then call `step` again.
    NeedInput,
    /// Deliver this synchronized group downstream, then call `step` again.
    Emit(Vec<(K, T)>),
    /// The input is exhausted and the buffers are drained.
    Finished,
}

/// The driver: a synchronizer plus the knowledge of whether the input
/// stream has ended.
pub struct Driver<K, T> {
    sync: Synchronizer<K, T>,
    input_done: bool,
}

impl<K: Key, T: WithTimestamp> Driver<K, T> {
    /// The synchronization session.
    pub closed spec fn sync_spec(&self) -> Synchronizer<K, T> {
        self.sync
    }

    /// Whether `end_of_input` has been called.
    pub closed spec fn input_done_spec(&self) -> bool {
        self.input_done
    }

    /// Well-formedness of the session.
    pub open spec fn wf(&self) -> bool {
        self.sync_spec().wf()
    }

    /// Builds a driver over a fresh session; see `Synchronizer::new`.
    pub fn new(keys: Vec<K>, config: Config, now: u64) -> (r: Result<Self, SyncError>)
        ensures
            match r {
                Ok(d) => {
                    &&& d.wf()
                    &&& !d.input_done_spec()
                    &&& d.sync_spec().emitted_spec().len() == 0
                    &&& keys@.len() > 0
                    &&& config.valid()
                    &&& Seq::new(
                        d.sync_spec().state_spec().num_keys() as nat,
                        |i: int| d.sync_spec().state_spec().key_at(i),
                    ) == crate::state::dedup_views::<K>(keys@.map_values(|k: K| k@))
                    &&& d.sync_spec().state_spec().commit_spec() == config.start_time
                    &&& d.sync_spec().state_spec().buf_size_spec() == config.buf_size
                    &&& d.sync_spec().state_spec().window_spec() == config.window_size
                    &&& d.sync_spec().state_spec().policy_spec() == config.drop_policy
                    &&& (forall|i: int|
                        0 <= i < d.sync_spec().state_spec().num_keys()
                            ==> #[trigger] d.sync_spec().state_spec().buf_at(i)@.len() == 0)
                    &&& (forall|i: int|
                        0 <= i < d.sync_spec().state_spec().num_keys()
                            ==> #[trigger] d.sync_spec().state_spec().buf_at(
                            i,
                        ).last_ts_spec() is None)
                },
                Err(e) => match e {
                    SyncError::NoKeys => keys@.len() == 0,
                    SyncError::BufferTooSmall => config.buf_size < 2,
                    SyncError::ZeroWindow => config.window_size == Some(0u64),
                    SyncError::BadStalenessConfig => {
                        &&& config.staleness_config matches Some(c)
                        &&& !c.wf()
                    },
                },
            },
    {
        match Synchronizer::new(keys, config, now) {
            Ok(sync) => Ok(Driver { sync, input_done: false }),
            Err(e) => Err(e),
        }
    }

    /// Hands one input event to the session.  The driver's policy is to
    /// drop rejected messages (they indicate upstream clock glitches, not
    /// faults); the error is returned so the host can log it.
    pub fn feed(&mut self, key: K, item: T, now: u64) -> (r: Result<(), PushError<T>>)
        requires
            old(self).wf(),
        ensures
            final(self).wf(),
            final(self).input_done_spec() == old(self).input_done_spec(),
            final(self).sync_spec().emitted_spec() == old(self).sync_spec().emitted_spec(),
            push_post(
                old(self).sync_spec().state_spec(),
                final(self).sync_spec().state_spec(),
                key,
                item,
                now,
                r,
            ),
    {
        self.sync.push(key, item, now)
    }

    /// Records that the input stream is exhausted; the driver then drains.
    pub fn end_of_input(&mut self)
        ensures
            final(self).input_done_spec(),
            final(self).sync_spec() == old(self).sync_spec(),
    {
        self.input_done = true;
    }

    /// The prune pass run between events: expired messages leave the
    /// buffers, measured against the commit cursor, and the staleness
    /// detector is drained against the host's clock `now`.
    pub fn prune(&mut self, now: u64)
        requires
            old(self).wf(),
        ensures
            final(self).wf(),
            final(self).input_done_spec() == old(self).input_done_spec(),
            final(self).sync_spec().emitted_spec() == old(self).sync_spec().emitted_spec(),
            final(self).sync_spec().state_spec().commit_spec() == old(self).sync_spec().state_spec().commit_spec(),
            final(self).sync_spec().state_spec().same_shape(
                &old(self).sync_spec().state_spec(),
            ),
            forall|i: int|
                0 <= i < old(self).sync_spec().state_spec().num_keys()
                    ==> crate::state::pruned_buffer::<K, T>(
                    old(self).sync_spec().state_spec().buf_at(i),
                    final(self).sync_spec().state_spec().buf_at(i),
                    #[trigger] old(self).sync_spec().state_spec().key_at(i),
                    old(self).sync_spec().state_spec().commit_spec(),
                    old(self).sync_spec().state_spec().detector_spec(),
                    now,
                ),
            old(self).sync_spec().state_spec().detector_spec() is Some ==> final(self).sync_spec().state_spec().detector_spec() is Some && final(self).sync_spec().state_spec().detector_spec()->0.no_expired(now),
    {
        let ghost s0 = self.sync.state_spec();
        match self.sync.commit_timestamp() {
            Some(c) => {
                let _ = self.sync.drop_expired_messages(c);
            },
            None => {},
        }
        let ghost smid = self.sync.state_spec();
        let _ = self.sync.process_staleness_expiration(now);
        proof {
            assert forall|i: int|
                0 <= i < s0.num_keys() implies crate::state::pruned_buffer::<K, T>(
                s0.buf_at(i),
                self.sync.state_spec().buf_at(i),
                #[trigger] s0.key_at(i),
                s0.commit_spec(),
                s0.detector_spec(),
                now,
            ) by {
                let bmid = smid.buf_at(i);
                match s0.commit_spec() {
                    Some(c) => {
                        assert(crate::state::expired_rel(s0.buf_at(i), bmid, c));
                    },
                    None => {
                        assert(bmid == s0.buf_at(i));
                    },
                }
                match s0.detector_spec() {
                    Some(d) => {
                        assert(smid.detector_spec() == s0.detector_spec());
                        assert(crate::state::staleness_pruned::<K, T>(
                            bmid,
                            self.sync.state_spec().buf_at(i),
                            smid.key_at(i),
                            d.expired_payload(now),
                        ));
                        assert(smid.key_at(i) == s0.key_at(i));
                    },
                    None => {
                        assert(self.sync.state_spec() == smid);
                    },
                }
            }
        }
    }

    /// A pacing snapshot of the session; see `State::feedback`.
    pub fn feedback(&self) -> (r: crate::types::Feedback<K>)
        ensures
            r.commit_timestamp == self.sync_spec().state_spec().commit_spec(),
            r.accepted_max_timestamp is None,
            r.accepted_keys@.map_values(|k: K| k@) == crate::state::accepted_views(
                self.sync_spec().state_spec().buffers_spec(),
                self.sync_spec().state_spec().buf_size_spec(),
            ),
    {
        self.sync.feedback()
    }

    /// One decision: what the host should do next.
    ///
    /// While the input lasts: fill until every buffer holds two messages
    /// (the spread check is then informative); when every buffer is full,
    /// either emit a match or sacrifice the minimum front to restore
    /// progress; otherwise try to emit and then ask for more input.  After
    /// the input ends: drain by emitting matches and sacrificing minima
    /// until some buffer is empty.
    pub fn step(&mut self) -> (r: DriverStep<K, T>)
        requires
            old(self).wf(),
        ensures
            final(self).wf(),
            final(self).input_done_spec() == old(self).input_done_spec(),
            match r {
                DriverStep::NeedInput => !final(self).input_done_spec() && ((!old(self).input_done_spec() && !old(self).sync_spec().state_spec().ready_spec())
                    ==> *final(self) == *old(self)) && ((
                !old(self).input_done_spec() && old(self).sync_spec().state_spec().ready_spec()
                    && !old(self).sync_spec().state_spec().full_spec()) ==> {
                    &&& crate::state::match_spec(
                        old(self).sync_spec().state_spec().views(),
                        old(self).sync_spec().state_spec().window_spec(),
                    ).1 is None
                    &&& final(self).sync_spec().state_spec().views()
                        == crate::state::match_spec(
                        old(self).sync_spec().state_spec().views(),
                        old(self).sync_spec().state_spec().window_spec(),
                    ).0
                    &&& final(self).sync_spec().emitted_spec() == old(self).sync_spec().emitted_spec()
                }) && (!final(self).sync_spec().state_spec().ready_spec() || {
                    &&& final(self).sync_spec().state_spec().window_spec() is Some
                    &&& !final(self).sync_spec().state_spec().all_one_spec()
                    &&& final(self).sync_spec().state_spec().all_nonempty()
                    &&& crate::types::sat_add(
                        final(self).sync_spec().state_spec().inf_spec(),
                        final(self).sync_spec().state_spec().window_spec()->0,
                    ) > final(self).sync_spec().state_spec().sup_spec()
                }),
                DriverStep::Emit(g) => {
                    &&& ((!old(self).input_done_spec() && old(self).sync_spec().state_spec().ready_spec() && !old(self).sync_spec().state_spec().full_spec()) ==> {
                        &&& crate::state::match_spec(
                            old(self).sync_spec().state_spec().views(),
                            old(self).sync_spec().state_spec().window_spec(),
                        ).1 == Some(Seq::new(g@.len() as nat, |j: int| g@[j].1))
                        &&& final(self).sync_spec().state_spec().views()
                            == crate::state::match_spec(
                            old(self).sync_spec().state_spec().views(),
                            old(self).sync_spec().state_spec().window_spec(),
                        ).0
                    })
                    &&& ((old(self).input_done_spec() && !old(self).sync_spec().state_spec().some_empty_spec() && crate::state::match_spec(
                        old(self).sync_spec().state_spec().views(),
                        old(self).sync_spec().state_spec().window_spec(),
                    ).1 is Some) ==> {
                        &&& crate::state::match_spec(
                            old(self).sync_spec().state_spec().views(),
                            old(self).sync_spec().state_spec().window_spec(),
                        ).1 == Some(Seq::new(g@.len() as nat, |j: int| g@[j].1))
                        &&& final(self).sync_spec().state_spec().views()
                            == crate::state::match_spec(
                            old(self).sync_spec().state_spec().views(),
                            old(self).sync_spec().state_spec().window_spec(),
                        ).0
                    })
                    &&& g@.len() == final(self).sync_spec().state_spec().num_keys()
                    &&& (forall|j: int|
                        0 <= j < g@.len() ==> #[trigger] g@[j].0@ == final(self).sync_spec().state_spec().key_at(j))
                    &&& final(self).sync_spec().state_spec().commit_spec() == Some(
                        seq_min(group_ts(g@)),
                    )
                    &&& (old(self).sync_spec().state_spec().window_spec() matches Some(d)
                        ==> seq_max(group_ts(g@)) <= crate::types::sat_add(
                        seq_min(group_ts(g@)),
                        d,
                    ))
                    &&& final(self).sync_spec().emitted_spec().len() == old(self).sync_spec().emitted_spec().len() + 1
                    &&& final(self).sync_spec().emitted_spec().last() == seq_min(group_ts(g@))
                    &&& non_decreasing(final(self).sync_spec().emitted_spec())
                },
                DriverStep::Finished => {
                    &&& final(self).input_done_spec()
                    &&& final(self).sync_spec().state_spec().some_empty_spec()
                    &&& ((old(self).input_done_spec() && old(self).sync_spec().state_spec().some_empty_spec()) ==> *final(self) == *old(self))
                },
            },
    {
        loop
            invariant
                self.wf(),
                self.input_done == old(self).input_done,
                self.sync.emitted_spec() == old(self).sync_spec().emitted_spec(),
                self.sync.state_spec().num_keys() == old(self).sync_spec().state_spec().num_keys(),
                self.sync.state_spec().window_spec() == old(self).sync_spec().state_spec().window_spec(),
                forall|j: int|
                    0 <= j < self.sync.state_spec().num_keys()
                        ==> #[trigger] self.sync.state_spec().key_at(j) == old(self).sync_spec().state_spec().key_at(j),
                (!old(self).input_done_spec() && !old(self).sync_spec().state_spec().ready_spec()) ==> *self == *old(self),
                (!old(self).input_done_spec() && old(self).sync_spec().state_spec().ready_spec()
                    && !old(self).sync_spec().state_spec().full_spec()) ==> *self == *old(self),
                (old(self).input_done_spec() && old(self).sync_spec().state_spec().some_empty_spec()) ==> *self == *old(self),
                (old(self).input_done_spec() && !old(self).sync_spec().state_spec().some_empty_spec() && crate::state::match_spec(
                    old(self).sync_spec().state_spec().views(),
                    old(self).sync_spec().state_spec().window_spec(),
                ).1 is Some) ==> *self == *old(self),
            decreases self.sync.state_spec().total_len() + 1,
        {
            let ghost iter0 = *self;
            proof {
                crate::state::lemma_state_total_nonneg(self.sync.state_spec());
            }
            let ghost pre_total = self.sync.state_spec().total_len();
            if !self.input_done {
                if !self.sync.is_ready() {
                    return DriverStep::NeedInput;
                }
                if self.sync.is_full() {
                    match self.sync.poll() {
                        Some(g) => {
                            return DriverStep::Emit(g);
                        },
                        None => {
                            let dropped = self.sync.drop_min();
                            if !dropped {
                                // every buffer is empty: refill
                                return DriverStep::NeedInput;
                            }
                            proof {
                                crate::state::lemma_state_total_nonneg(self.sync.state_spec());
                                assert(self.sync.state_spec().total_len() < pre_total);
                                // on a full state the earlier branches would
                                // have returned, so the hypotheses of the
                                // unchanged-state invariants cannot hold
                                if !old(self).input_done_spec() && !old(
                                    self,
                                ).sync_spec().state_spec().ready_spec() {
                                    assert(iter0 == *old(self));
                                    assert(old(self).sync_spec().state_spec().full_spec());
                                    assert forall|i: int|
                                        0 <= i < old(self).sync_spec().state_spec().num_keys()
                                        implies #[trigger] old(
                                        self,
                                    ).sync_spec().state_spec().buf_at(i)@.len() >= 2 by {
                                        assert(old(self).sync_spec().state_spec().buf_at(
                                            i,
                                        )@.len() >= old(
                                            self,
                                        ).sync_spec().state_spec().buf_size_spec());
                                    }
                                    assert(false);
                                }
                                if !old(self).input_done_spec() && old(
                                    self,
                                ).sync_spec().state_spec().ready_spec() && !old(
                                    self,
                                ).sync_spec().state_spec().full_spec() {
                                    assert(iter0 == *old(self));
                                    assert(old(self).sync_spec().state_spec().full_spec());
                                    assert(false);
                                }
                            }
                        },
                    }
                } else {
                    match self.sync.poll() {
                        Some(g) => {
                            return DriverStep::Emit(g);
                        },
                        None => {
                            return DriverStep::NeedInput;
                        },
                    }
                }
            } else {
                if self.sync.is_empty() {
                    return DriverStep::Finished;
                }
                match self.sync.poll() {
                    Some(g) => {
                        return DriverStep::Emit(g);
                    },
                    None => {
                        let dropped = self.sync.drop_min();
                        if !dropped {
                            proof {
                                assert(self.sync.state_spec().num_keys() > 0);
                                assert(self.sync.state_spec().buf_at(0)@.len() == 0);
                            }
                            return DriverStep::Finished;
                        }
                        proof {
                            crate::state::lemma_state_total_nonneg(self.sync.state_spec());
                            assert(self.sync.state_spec().total_len() < pre_total);
                            // a drained or still-matchable state would have
                            // returned before reaching the sacrifice
                            if old(self).input_done_spec() && old(
                                self,
                            ).sync_spec().state_spec().some_empty_spec() {
                                assert(iter0 == *old(self));
                                assert(false);
                            }
                            if old(self).input_done_spec() && !old(
                                self,
                            ).sync_spec().state_spec().some_empty_spec()
                                && crate::state::match_spec(
                                old(self).sync_spec().state_spec().views(),
                                old(self).sync_spec().state_spec().window_spec(),
                            ).1 is Some {
                                assert(iter0 == *old(self));
                                assert(false);
                            }
                        }
                    },
                }
            }
        }
    }
}

} // verus!
