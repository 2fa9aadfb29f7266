//! Pro-active message expiration.
//!
//! The staleness detector indexes buffered messages by their real-time
//! expiration instant.  A bounded min-heap with precision-gap coalescing
//! holds near-term expirations; entries beyond the heap's time horizon, or
//! beyond its size cap, overflow into a timer wheel of fixed-duration slots.
//! All instants are nanosecond counts supplied by the caller, so the logic is
//! a pure function of its inputs.

use vstd::prelude::*;

use crate::types::{sat_add, sat_sub};

verus! {

/// Configuration for staleness detection.
#[derive(Clone, Copy)]
pub struct StalenessConfig {
    /// Maximum number of entries in the min-heap before delegating to the
    /// timer wheel.
    pub heap_max_size: usize,
    /// Maximum time horizon for heap entries, in nanoseconds; messages that
    /// expire later go to the timer wheel.
    pub heap_time_horizon: u64,
    /// Minimum separation between distinct heap entries, in nanoseconds;
    /// closer expirations share an entry.
    pub precision_gap: u64,
    /// Number of timer-wheel slots.
    pub timer_wheel_slots: usize,
    /// Duration of one timer-wheel slot, in nanoseconds.
    pub timer_wheel_slot_duration: u64,
    /// Whether a host with its own timer should expire messages eagerly; the
    /// core itself is always polled.
    pub enable_immediate_expiration: bool,
}

impl StalenessConfig {
    /// A usable configuration: the wheel must have at least one slot of
    /// nonzero duration.
    pub open spec fn wf(&self) -> bool {
        &&& self.timer_wheel_slots > 0
        &&& self.timer_wheel_slot_duration > 0
    }

    /// High-frequency streaming (sub-millisecond precision, real-time).
    pub fn high_frequency() -> (r: Self)
        ensures
            r.wf(),
            r == (StalenessConfig {
                heap_max_size: 512usize,
                heap_time_horizon: 50_000_000u64,
                precision_gap: 100_000u64,
                timer_wheel_slots: 256usize,
                timer_wheel_slot_duration: 5_000_000u64,
                enable_immediate_expiration: true,
            }),
    {
        StalenessConfig {
            heap_max_size: 512,
            heap_time_horizon: 50_000_000,
            precision_gap: 100_000,
            timer_wheel_slots: 256,
            timer_wheel_slot_duration: 5_000_000,
            enable_immediate_expiration: true,
        }
    }

    /// Low-frequency streaming (millisecond precision, near real-time).
    pub fn low_frequency() -> (r: Self)
        ensures
            r.wf(),
            r == (StalenessConfig {
                heap_max_size: 128usize,
                heap_time_horizon: 500_000_000u64,
                precision_gap: 10_000_000u64,
                timer_wheel_slots: 64usize,
                timer_wheel_slot_duration: 50_000_000u64,
                enable_immediate_expiration: true,
            }),
    {
        StalenessConfig {
            heap_max_size: 128,
            heap_time_horizon: 500_000_000,
            precision_gap: 10_000_000,
            timer_wheel_slots: 64,
            timer_wheel_slot_duration: 50_000_000,
            enable_immediate_expiration: true,
        }
    }

    /// Batch processing (relaxed precision, lazy checking).
    pub fn batch_processing() -> (r: Self)
        ensures
            r.wf(),
            r == (StalenessConfig {
                heap_max_size: 64usize,
                heap_time_horizon: 1_000_000_000u64,
                precision_gap: 100_000_000u64,
                timer_wheel_slots: 32usize,
                timer_wheel_slot_duration: 200_000_000u64,
                enable_immediate_expiration: false,
            }),
    {
        StalenessConfig {
            heap_max_size: 64,
            heap_time_horizon: 1_000_000_000,
            precision_gap: 100_000_000,
            timer_wheel_slots: 32,
            timer_wheel_slot_duration: 200_000_000,
            enable_immediate_expiration: false,
        }
    }
}

impl Default for StalenessConfig {
    /// The general-purpose configuration.
    fn default() -> (r: Self)
        ensures
            r.wf(),
            r == (StalenessConfig {
                heap_max_size: 256usize,
                heap_time_horizon: 100_000_000u64,
                precision_gap: 500_000u64,
                timer_wheel_slots: 128usize,
                timer_wheel_slot_duration: 10_000_000u64,
                enable_immediate_expiration: false,
            }),
    {
        StalenessConfig {
            heap_max_size: 256,
            heap_time_horizon: 100_000_000,
            precision_gap: 500_000,
            timer_wheel_slots: 128,
            timer_wheel_slot_duration: 10_000_000,
            enable_immediate_expiration: false,
        }
    }
}

/// One heap entry: an expiration instant and the messages coalesced onto it.
struct StalenessEntry<K, T> {
    expiration_time: u64,
    messages: Vec<(K, T)>,
}

/// Whether two expiration instants are close enough to share a heap entry.
pub open spec fn within_gap(a: u64, b: u64, gap: u64) -> bool {
    (if a >= b {
        sat_sub(a, b)
    } else {
        sat_sub(b, a)
    }) <= gap
}

/// The members of a sequence of heap entries, flattened in entry order.
/// An entry is viewed as its expiration instant paired with its members.
pub open spec fn flat_members<K, T>(s: Seq<(u64, Seq<(K, T)>)>) -> Seq<(K, T)>
    decreases s.len(),
{
    if s.len() == 0 {
        Seq::empty()
    } else {
        flat_members(s.drop_last()) + s.last().1
    }
}

/// The members of the leading entries expired by `now`, in entry order.
pub open spec fn heap_expired<K, T>(s: Seq<(u64, Seq<(K, T)>)>, now: u64) -> Seq<(K, T)>
    decreases s.len(),
{
    if s.len() == 0 || s[0].0 > now {
        Seq::empty()
    } else {
        s[0].1 + heap_expired(s.skip(1), now)
    }
}

/// Peeling the first entry off a flattened prefix.
proof fn lemma_flat_members_front<K, T>(s: Seq<(u64, Seq<(K, T)>)>, k: int)
    requires
        0 < k <= s.len(),
    ensures
        flat_members(s.take(k)) == s[0].1 + flat_members(s.skip(1).take(k - 1)),
    decreases k,
{
    if k == 1 {
        assert(s.take(1).drop_last() =~= Seq::<(u64, Seq<(K, T)>)>::empty());
        assert(s.take(1).last() == s[0]);
        assert(flat_members(Seq::<(u64, Seq<(K, T)>)>::empty()) == Seq::<(K, T)>::empty());
        assert(flat_members(s.take(1)) =~= s[0].1 + flat_members(s.skip(1).take(0)));
    } else {
        lemma_flat_members_front(s, k - 1);
        assert(s.take(k).drop_last() =~= s.take(k - 1));
        assert(s.take(k).last() == s[k - 1]);
        assert(s.skip(1).take(k - 1).drop_last() =~= s.skip(1).take(k - 2));
        assert(s.skip(1).take(k - 1).last() == s[k - 1]);
        assert(flat_members(s.take(k)) == flat_members(s.take(k - 1)) + s[k - 1].1);
        assert(flat_members(s.skip(1).take(k - 1)) == flat_members(s.skip(1).take(k - 2)) + s[
            k - 1
        ].1);
        assert(flat_members(s.take(k)) =~= s[0].1 + flat_members(s.skip(1).take(k - 1)));
    }
}

/// For a sorted entry sequence, the expired members are the flattened
/// expired prefix.
proof fn lemma_heap_expired_is_take<K, T>(s: Seq<(u64, Seq<(K, T)>)>, now: u64, n: int)
    requires
        0 <= n <= s.len(),
        forall|i: int| 0 <= i < n ==> s[i].0 <= now,
        n < s.len() ==> s[n].0 > now,
    ensures
        heap_expired(s, now) == flat_members(s.take(n)),
    decreases s.len(),
{
    if s.len() == 0 || s[0].0 > now {
        assert(n == 0);
        assert(s.take(0) =~= Seq::<(u64, Seq<(K, T)>)>::empty());
        assert(heap_expired(s, now) =~= flat_members(s.take(0)));
    } else {
        assert(n >= 1);
        assert(forall|i: int| 0 <= i < n - 1 ==> s.skip(1)[i].0 <= now);
        assert(n - 1 < s.skip(1).len() ==> s.skip(1)[n - 1].0 > now);
        lemma_heap_expired_is_take(s.skip(1), now, n - 1);
        lemma_flat_members_front(s, n);
        assert(heap_expired(s, now) =~= flat_members(s.take(n)));
    }
}

/// How a heap add changes the entries: the message either joins the
/// earliest entry within `gap` of `expire`, or founds a new entry at its
/// sorted position.
pub open spec fn heap_add_post<K, T>(
    pre: Seq<(u64, Seq<(K, T)>)>,
    post: Seq<(u64, Seq<(K, T)>)>,
    key: K,
    message: T,
    expire: u64,
    gap: u64,
) -> bool {
    if exists|i: int| 0 <= i < pre.len() && within_gap(pre[i].0, expire, gap) {
        exists|i: int|
            {
                &&& 0 <= i < pre.len()
                &&& within_gap(pre[i].0, expire, gap)
                &&& (forall|j: int| 0 <= j < i ==> !within_gap(pre[j].0, expire, gap))
                &&& post == pre.update(i, (pre[i].0, pre[i].1.push((key, message))))
            }
    } else {
        exists|i: int|
            {
                &&& 0 <= i <= pre.len()
                &&& (forall|j: int| 0 <= j < i ==> pre[j].0 <= expire)
                &&& (i < pre.len() ==> pre[i].0 > expire)
                &&& post == pre.insert(i, (expire, seq![(key, message)]))
            }
    }
}

/// Min-heap of pending expirations, bounded in size and time horizon, with
/// precision-gap coalescing.  Entries are kept sorted by expiration.
pub struct ConstrainedHeap<K, T> {
    entries: Vec<StalenessEntry<K, T>>,
    config: StalenessConfig,
}

impl<K, T> ConstrainedHeap<K, T> {
    /// The entries, earliest expiration first: each is the expiration
    /// instant paired with the coalesced members in arrival order.
    pub closed spec fn entries_spec(&self) -> Seq<(u64, Seq<(K, T)>)> {
        self.entries@.map_values(|e: StalenessEntry<K, T>| (e.expiration_time, e.messages@))
    }

    /// The configuration the heap was built with.
    pub closed spec fn config_spec(&self) -> StalenessConfig {
        self.config
    }

    /// Well-formedness: entries sorted by expiration, none empty.
    pub open spec fn wf(&self) -> bool {
        &&& forall|i: int, j: int|
            0 <= i < j < self.entries_spec().len() ==> self.entries_spec()[i].0
                <= self.entries_spec()[j].0
        &&& forall|i: int|
            0 <= i < self.entries_spec().len() ==> self.entries_spec()[i].1.len() >= 1
    }

    /// Whether some entry can absorb an expiration at `expire`.
    pub open spec fn has_gap_slot(&self, expire: u64) -> bool {
        exists|i: int|
            0 <= i < self.entries_spec().len() && within_gap(
                self.entries_spec()[i].0,
                expire,
                self.config_spec().precision_gap,
            )
    }

    /// Whether a message with dwell `timeout` registered at `now` is taken by
    /// the heap rather than delegated to the timer wheel.
    pub open spec fn accepts(&self, timeout: u64, now: u64) -> bool {
        &&& timeout <= self.config_spec().heap_time_horizon
        &&& (self.has_gap_slot(sat_add(now, timeout)) || self.entries_spec().len()
            < self.config_spec().heap_max_size)
    }

    /// Creates an empty heap.
    pub fn new(config: StalenessConfig) -> (r: Self)
        ensures
            r.wf(),
            r.entries_spec().len() == 0,
            r.config_spec() == config,
    {
        ConstrainedHeap { entries: Vec::new(), config }
    }

    /// Tries to index a message expiring `staleness_timeout` after `now`.
    /// The message is refused — handed back for the timer wheel — when its
    /// timeout exceeds the heap's horizon, or when the heap is full and no
    /// existing entry lies within the precision gap of the new expiration.
    /// A coalesced message joins the earliest entry within the gap; a new
    /// expiration is inserted at its sorted position.
    pub fn try_add(&mut self, key: K, message: T, staleness_timeout: u64, now: u64) -> (r: Result<
        (),
        (K, T),
    >)
        requires
            old(self).wf(),
        ensures
            final(self).wf(),
            final(self).config_spec() == old(self).config_spec(),
            match r {
                Ok(()) => {
                    &&& old(self).accepts(staleness_timeout, now)
                    &&& heap_add_post(
                        old(self).entries_spec(),
                        final(self).entries_spec(),
                        key,
                        message,
                        sat_add(now, staleness_timeout),
                        old(self).config_spec().precision_gap,
                    )
                },
                Err(km) => {
                    &&& km == (key, message)
                    &&& !old(self).accepts(staleness_timeout, now)
                    &&& final(self).entries_spec() == old(self).entries_spec()
                },
            },
    {
        if staleness_timeout > self.config.heap_time_horizon {
            return Err((key, message));
        }
        let expire = crate::types::add_sat(now, staleness_timeout);

        // look for the earliest entry within the precision gap
        let n = self.entries.len();
        let mut i: usize = 0;
        loop
            invariant
                self == old(self),
                self.wf(),
                n == self.entries_spec().len(),
                i <= n,
                expire == sat_add(now, staleness_timeout),
                forall|j: int|
                    0 <= j < i ==> !within_gap(
                        self.entries_spec()[j].0,
                        expire,
                        self.config_spec().precision_gap,
                    ),
            ensures
                self == old(self),
                i <= n,
                forall|j: int|
                    0 <= j < i ==> !within_gap(
                        self.entries_spec()[j].0,
                        expire,
                        self.config_spec().precision_gap,
                    ),
                i < n ==> within_gap(
                    self.entries_spec()[i as int].0,
                    expire,
                    self.config_spec().precision_gap,
                ),
            decreases n - i,
        {
            if i == n {
                break;
            }
            let e = self.entries[i].expiration_time;
            let diff = if e >= expire {
                e - expire
            } else {
                expire - e
            };
            if diff <= self.config.precision_gap {
                break;
            }
            i = i + 1;
        }

        if i < n {
            // coalesce with entry i
            let entry = self.entries.remove(i);
            let mut messages = entry.messages;
            messages.push((key, message));
            let expiration_time = entry.expiration_time;
            self.entries.insert(i, StalenessEntry { expiration_time, messages });
            proof {
                assert(self.entries_spec() =~= old(self).entries_spec().update(
                    i as int,
                    (
                        old(self).entries_spec()[i as int].0,
                        old(self).entries_spec()[i as int].1.push((key, message)),
                    ),
                ));
            }
            return Ok(());
        }
        proof {
            assert(!self.has_gap_slot(expire));
        }

        // no coalescing possible
        if self.entries.len() >= self.config.heap_max_size {
            return Err((key, message));
        }

        // insert a new singleton entry at its sorted position
        let mut pos: usize = 0;
        loop
            invariant
                self == old(self),
                self.wf(),
                n == self.entries_spec().len(),
                pos <= n,
                forall|j: int| 0 <= j < pos ==> self.entries_spec()[j].0 <= expire,
            ensures
                self == old(self),
                pos <= n,
                forall|j: int| 0 <= j < pos ==> self.entries_spec()[j].0 <= expire,
                pos < n ==> self.entries_spec()[pos as int].0 > expire,
            decreases n - pos,
        {
            if pos == self.entries.len() {
                break;
            }
            if self.entries[pos].expiration_time > expire {
                break;
            }
            pos = pos + 1;
        }
        let mut messages: Vec<(K, T)> = Vec::new();
        messages.push((key, message));
        self.entries.insert(pos, StalenessEntry { expiration_time: expire, messages });
        proof {
            assert(self.entries_spec() =~= old(self).entries_spec().insert(
                pos as int,
                (expire, seq![(key, message)]),
            ));
        }
        Ok(())
    }

    /// The earliest pending expiration, if any.
    pub fn next_expiration(&self) -> (r: Option<u64>)
        ensures
            match r {
                None => self.entries_spec().len() == 0,
                Some(e) => self.entries_spec().len() > 0 && e == self.entries_spec()[0].0,
            },
    {
        if self.entries.len() == 0 {
            None
        } else {
            Some(self.entries[0].expiration_time)
        }
    }

    /// Removes the entries that have expired by `now` and returns their
    /// members in entry order.  Afterwards every remaining entry expires
    /// after `now`.
    pub fn drain_expired(&mut self, now: u64) -> (r: Vec<(K, T)>)
        requires
            old(self).wf(),
        ensures
            final(self).wf(),
            final(self).config_spec() == old(self).config_spec(),
            exists|n: int|
                {
                    &&& 0 <= n <= old(self).entries_spec().len()
                    &&& (forall|i: int| 0 <= i < n ==> old(self).entries_spec()[i].0 <= now)
                    &&& final(self).entries_spec() == old(self).entries_spec().skip(n)
                    &&& r@ == flat_members(old(self).entries_spec().take(n))
                },
            forall|i: int|
                0 <= i < final(self).entries_spec().len() ==> final(self).entries_spec()[i].0
                    > now,
            r@ == heap_expired(old(self).entries_spec(), now),
    {
        let mut r: Vec<(K, T)> = Vec::new();
        let total = self.entries.len();
        let mut n: usize = 0;
        loop
            invariant
                old(self).wf(),
                self.wf(),
                self.config_spec() == old(self).config_spec(),
                total == old(self).entries_spec().len(),
                n <= total,
                self.entries_spec() == old(self).entries_spec().skip(n as int),
                forall|i: int| 0 <= i < n ==> old(self).entries_spec()[i].0 <= now,
                r@ == flat_members(old(self).entries_spec().take(n as int)),
            ensures
                self.wf(),
                self.config_spec() == old(self).config_spec(),
                n <= total,
                self.entries_spec() == old(self).entries_spec().skip(n as int),
                forall|i: int| 0 <= i < n ==> old(self).entries_spec()[i].0 <= now,
                r@ == flat_members(old(self).entries_spec().take(n as int)),
                self.entries_spec().len() == 0 || self.entries_spec()[0].0 > now,
            decreases self.entries_spec().len(),
        {
            if self.entries.len() == 0 {
                break;
            }
            if self.entries[0].expiration_time > now {
                break;
            }
            proof {
                assert(self.entries_spec()[0] == old(self).entries_spec()[n as int]);
                assert(self.entries_spec()[0].0 == self.entries@[0].expiration_time);
            }
            let ghost prev = self.entries@;
            let entry = self.entries.remove(0);
            proof {
                assert(self.entries@ == prev.remove(0));
                assert(self.entries@ =~= prev.skip(1));
                assert forall|k: int| 0 <= k < self.entries_spec().len() implies
                    self.entries_spec()[k] == old(self).entries_spec().skip(n + 1)[k] by {
                    assert(self.entries@[k] == prev[k + 1]);
                    assert(self.entries_spec()[k] == prev.map_values(
                        |e: StalenessEntry<K, T>| (e.expiration_time, e.messages@),
                    )[k + 1]);
                }
                assert(self.entries_spec() =~= old(self).entries_spec().skip(n + 1));
                assert(old(self).entries_spec().take(n + 1).drop_last() =~= old(
                    self,
                ).entries_spec().take(n as int));
                assert(old(self).entries_spec().take(n + 1).last() == old(
                    self,
                ).entries_spec()[n as int]);
            }
            append_all(&mut r, entry.messages);
            n = n + 1;
        }
        proof {
            assert forall|i: int|
                0 <= i < self.entries_spec().len() implies self.entries_spec()[i].0 > now by {
                if i > 0 {
                    assert(self.entries_spec()[0].0 <= self.entries_spec()[i].0);
                }
            }
            lemma_heap_expired_is_take(old(self).entries_spec(), now, n as int);
        }
        r
    }

    /// Number of heap entries (coalesced messages count once).
    pub fn len(&self) -> (n: usize)
        ensures
            n == self.entries_spec().len(),
    {
        self.entries.len()
    }

    /// Whether the heap holds no entry.
    pub fn is_empty(&self) -> (r: bool)
        ensures
            r == (self.entries_spec().len() == 0),
    {
        self.entries.len() == 0
    }

    /// Removes all entries.
    pub fn clear(&mut self)
        ensures
            final(self).wf(),
            final(self).entries_spec().len() == 0,
            final(self).config_spec() == old(self).config_spec(),
    {
        self.entries.clear();
    }
}

/// The items of one timer-wheel slot that outlive `now`, in slot order.
pub open spec fn kept_of<K, T>(s: Seq<(K, T, u64)>, now: u64) -> Seq<(K, T, u64)>
    decreases s.len(),
{
    if s.len() == 0 {
        Seq::empty()
    } else {
        let p = kept_of(s.drop_last(), now);
        if s.last().2 > now {
            p.push(s.last())
        } else {
            p
        }
    }
}

/// The items of one timer-wheel slot that have expired by `now`, stripped to
/// their key and message, in slot order.
pub open spec fn expired_of<K, T>(s: Seq<(K, T, u64)>, now: u64) -> Seq<(K, T)>
    decreases s.len(),
{
    if s.len() == 0 {
        Seq::empty()
    } else {
        let p = expired_of(s.drop_last(), now);
        if s.last().2 <= now {
            p.push((s.last().0, s.last().1))
        } else {
            p
        }
    }
}

/// The expired items of every slot, slot 0 first.
pub open spec fn flat_expired<K, T>(slots: Seq<Seq<(K, T, u64)>>, now: u64) -> Seq<(K, T)>
    decreases slots.len(),
{
    if slots.len() == 0 {
        Seq::empty()
    } else {
        flat_expired(slots.drop_last(), now) + expired_of(slots.last(), now)
    }
}

/// The slot an expiration lands in: the wheel position `⌊(expire − start) /
/// slot_duration⌋` ahead of the current slot, wrapping around.
pub open spec fn wheel_index(current: int, nslots: int, start: u64, dur: u64, expire: u64) -> int
    recommends
        nslots > 0,
        dur > 0,
{
    (current + sat_sub(expire, start) as int / dur as int) % nslots
}

/// How a wheel add changes the slots: the entry is appended to the slot that
/// `wheel_index` selects.
pub open spec fn wheel_add_post<K, T>(
    pre: Seq<Seq<(K, T, u64)>>,
    post: Seq<Seq<(K, T, u64)>>,
    key: K,
    message: T,
    expire: u64,
    current: int,
    start: u64,
    dur: u64,
) -> bool {
    post == pre.update(
        wheel_index(current, pre.len() as int, start, dur, expire),
        pre[wheel_index(current, pre.len() as int, start, dur, expire)].push(
            (key, message, expire),
        ),
    )
}

/// Ring of slots of fixed duration holding the expirations that overflow the
/// constrained heap.  A sweep visits every slot, so entries whose slot index
/// was skipped during a long gap are still collected.
pub struct TimerWheel<K, T> {
    slots: Vec<Vec<(K, T, u64)>>,
    slot_duration: u64,
    current_slot: usize,
    start_time: u64,
}

impl<K, T> TimerWheel<K, T> {
    /// The slots, each a sequence of `(key, message, expiration)` items.
    pub closed spec fn slots_spec(&self) -> Seq<Seq<(K, T, u64)>> {
        self.slots@.map_values(|v: Vec<(K, T, u64)>| v@)
    }

    /// The duration of one slot, in nanoseconds.
    pub closed spec fn slot_duration_spec(&self) -> u64 {
        self.slot_duration
    }

    /// The currently indexed slot.
    pub closed spec fn current_slot_spec(&self) -> int {
        self.current_slot as int
    }

    /// The instant the wheel was started at.
    pub closed spec fn start_time_spec(&self) -> u64 {
        self.start_time
    }

    /// Well-formedness: at least one slot, nonzero slot duration, current
    /// slot in range.
    pub open spec fn wf(&self) -> bool {
        &&& self.slots_spec().len() > 0
        &&& self.slot_duration_spec() > 0
        &&& 0 <= self.current_slot_spec() < self.slots_spec().len()
    }

    /// Creates a wheel of `slots` empty slots of `slot_duration` each,
    /// started at `start_time`.
    pub fn new(slots: usize, slot_duration: u64, start_time: u64) -> (r: Self)
        requires
            slots > 0,
            slot_duration > 0,
        ensures
            r.wf(),
            r.slots_spec().len() == slots,
            forall|i: int| 0 <= i < slots ==> r.slots_spec()[i].len() == 0,
            r.slot_duration_spec() == slot_duration,
            r.current_slot_spec() == 0,
            r.start_time_spec() == start_time,
    {
        let mut v: Vec<Vec<(K, T, u64)>> = Vec::new();
        let mut i: usize = 0;
        while i < slots
            invariant
                i <= slots,
                v@.len() == i,
                forall|j: int| 0 <= j < i ==> v@[j]@.len() == 0,
            decreases slots - i,
        {
            v.push(Vec::new());
            i = i + 1;
        }
        TimerWheel { slots: v, slot_duration, current_slot: 0, start_time }
    }

    /// Files a message under the slot its expiration falls in.
    pub fn add_message(&mut self, key: K, message: T, expiration_time: u64)
        requires
            old(self).wf(),
        ensures
            final(self).wf(),
            final(self).slot_duration_spec() == old(self).slot_duration_spec(),
            final(self).current_slot_spec() == old(self).current_slot_spec(),
            final(self).start_time_spec() == old(self).start_time_spec(),
            wheel_add_post(
                old(self).slots_spec(),
                final(self).slots_spec(),
                key,
                message,
                expiration_time,
                old(self).current_slot_spec(),
                old(self).start_time_spec(),
                old(self).slot_duration_spec(),
            ),
    {
        let offset = crate::types::sub_sat(expiration_time, self.start_time)
            / self.slot_duration;
        let n = self.slots.len();
        let idx128 = (self.current_slot as u128 + offset as u128) % (n as u128);
        let idx = idx128 as usize;
        proof {
            assert(idx128 < n as u128);
            assert(idx as int == wheel_index(
                self.current_slot as int,
                n as int,
                self.start_time,
                self.slot_duration,
                expiration_time,
            ));
        }
        let mut slot = self.slots.remove(idx);
        slot.push((key, message, expiration_time));
        self.slots.insert(idx, slot);
        proof {
            assert(self.slots_spec() =~= old(self).slots_spec().update(
                idx as int,
                old(self).slots_spec()[idx as int].push((key, message, expiration_time)),
            ));
        }
    }

    /// Sweeps every slot, removing and returning the items expired by `now`,
    /// and re-indexes the current slot from `now`.  Every remaining item
    /// expires after `now`.
    pub fn advance_and_collect_expired(&mut self, now: u64) -> (r: Vec<(K, T)>)
        requires
            old(self).wf(),
        ensures
            final(self).wf(),
            final(self).slot_duration_spec() == old(self).slot_duration_spec(),
            final(self).start_time_spec() == old(self).start_time_spec(),
            final(self).slots_spec().len() == old(self).slots_spec().len(),
            final(self).current_slot_spec() == sat_sub(now, old(self).start_time_spec()) as int
                / old(self).slot_duration_spec() as int % old(self).slots_spec().len() as int,
            forall|i: int|
                0 <= i < old(self).slots_spec().len() ==> final(self).slots_spec()[i] == kept_of(
                    old(self).slots_spec()[i],
                    now,
                ),
            r@ == flat_expired(old(self).slots_spec(), now),
            forall|i: int, k: int|
                0 <= i < final(self).slots_spec().len()
                    && 0 <= k < final(self).slots_spec()[i].len()
                    ==> final(self).slots_spec()[i][k].2 > now,
    {
        let mut r: Vec<(K, T)> = Vec::new();
        let n = self.slots.len();
        let mut i: usize = 0;
        while i < n
            invariant
                old(self).wf(),
                self.wf(),
                n == self.slots_spec().len(),
                n == old(self).slots_spec().len(),
                i <= n,
                self.slot_duration_spec() == old(self).slot_duration_spec(),
                self.start_time_spec() == old(self).start_time_spec(),
                self.current_slot_spec() == old(self).current_slot_spec(),
                forall|j: int| i <= j < n ==> self.slots_spec()[j] == old(self).slots_spec()[j],
                forall|j: int|
                    0 <= j < i ==> self.slots_spec()[j] == kept_of(old(self).slots_spec()[j], now),
                r@ == flat_expired(old(self).slots_spec().take(i as int), now),
            decreases n - i,
        {
            let ghost pre_slots = self.slots_spec();
            let mut items = self.slots.remove(i);
            let ghost orig = items@;
            let mut kept: Vec<(K, T, u64)> = Vec::new();
            let total = items.len();
            let mut j: usize = 0;
            while j < total
                invariant
                    total == orig.len(),
                    j <= total,
                    items@ == orig.skip(j as int),
                    kept@ == kept_of(orig.take(j as int), now),
                    r@ == flat_expired(old(self).slots_spec().take(i as int), now) + expired_of(
                        orig.take(j as int),
                        now,
                    ),
                decreases total - j,
            {
                let ghost prev_items = items@;
                let it = items.remove(0);
                proof {
                    assert(items@ =~= orig.skip(j + 1));
                    assert(orig.take(j + 1).drop_last() =~= orig.take(j as int));
                    assert(orig.take(j + 1).last() == orig[j as int]);
                    assert(it == orig[j as int]);
                }
                if it.2 > now {
                    kept.push(it);
                } else {
                    r.push((it.0, it.1));
                }
                j = j + 1;
            }
            proof {
                assert(orig.take(total as int) =~= orig);
            }
            self.slots.insert(i, kept);
            proof {
                assert(self.slots_spec() =~= pre_slots.update(i as int, kept_of(orig, now)));
                assert(old(self).slots_spec().take(i + 1).drop_last() =~= old(
                    self,
                ).slots_spec().take(i as int));
            }
            i = i + 1;
        }
        proof {
            assert(old(self).slots_spec().take(n as int) =~= old(self).slots_spec());
            assert forall|a: int, k: int|
                0 <= a < self.slots_spec().len() && 0 <= k < self.slots_spec()[a].len() implies
                self.slots_spec()[a][k].2 > now by {
                lemma_kept_of_all(old(self).slots_spec()[a], now);
            }
        }
        // re-index the current slot from the wall clock
        let passed = crate::types::sub_sat(now, self.start_time);
        let steps = passed / self.slot_duration;
        let new_slot128 = steps as u128 % (n as u128);
        let new_slot = new_slot128 as usize;
        self.current_slot = new_slot;
        r
    }

    /// Number of slots.
    pub fn slot_count(&self) -> (n: usize)
        ensures
            n == self.slots_spec().len(),
    {
        self.slots.len()
    }

    /// Number of items filed in slot `i`.
    pub fn slot_len(&self, i: usize) -> (n: usize)
        requires
            i < self.slots_spec().len(),
        ensures
            n == self.slots_spec()[i as int].len(),
    {
        self.slots[i].len()
    }

    /// Empties every slot.
    pub fn clear_slots(&mut self)
        requires
            old(self).wf(),
        ensures
            final(self).wf(),
            final(self).slots_spec().len() == old(self).slots_spec().len(),
            forall|i: int|
                0 <= i < final(self).slots_spec().len() ==> final(self).slots_spec()[i].len()
                    == 0,
            final(self).slot_duration_spec() == old(self).slot_duration_spec(),
            final(self).current_slot_spec() == old(self).current_slot_spec(),
            final(self).start_time_spec() == old(self).start_time_spec(),
    {
        let n = self.slots.len();
        let mut i: usize = 0;
        while i < n
            invariant
                self.wf(),
                n == self.slots_spec().len(),
                i <= n,
                self.slot_duration_spec() == old(self).slot_duration_spec(),
                self.current_slot_spec() == old(self).current_slot_spec(),
                self.start_time_spec() == old(self).start_time_spec(),
                forall|j: int| 0 <= j < i ==> self.slots_spec()[j].len() == 0,
            decreases n - i,
        {
            let ghost pre_slots = self.slots_spec();
            let _ = self.slots.remove(i);
            self.slots.insert(i, Vec::new());
            proof {
                assert(self.slots_spec() =~= pre_slots.update(i as int, Seq::empty()));
            }
            i = i + 1;
        }
    }

    /// The boundary of the slot after the current one, if any slot holds a
    /// pending item; `None` when the wheel is empty.
    pub fn next_slot_time(&self) -> (r: Option<u64>)
        requires
            self.wf(),
        ensures
            match r {
                Some(t) => {
                    &&& exists|i: int|
                        0 <= i < self.slots_spec().len() && self.slots_spec()[i].len() > 0
                    &&& t == sat_add(
                        self.start_time_spec(),
                        sat_mul(
                            self.slot_duration_spec(),
                            (self.current_slot_spec() + 1) as u64,
                        ),
                    )
                },
                None => forall|i: int|
                    0 <= i < self.slots_spec().len() ==> self.slots_spec()[i].len() == 0,
            },
    {
        let n = self.slots.len();
        let mut i: usize = 0;
        let mut occupied = false;
        while i < n
            invariant
                n == self.slots_spec().len(),
                i <= n,
                occupied == exists|j: int|
                    0 <= j < i && self.slots_spec()[j].len() > 0,
            decreases n - i,
        {
            if self.slots[i].len() > 0 {
                occupied = true;
                proof {
                    assert(self.slots_spec()[i as int].len() > 0);
                }
            } else {
                proof {
                    assert(self.slots_spec()[i as int].len() == 0);
                }
            }
            i = i + 1;
        }
        if occupied {
            Some(crate::types::add_sat(
                self.start_time,
                mul_sat(self.slot_duration, (self.current_slot as u64) + 1),
            ))
        } else {
            None
        }
    }
}

/// All kept wheel items expire after `now`.
proof fn lemma_kept_of_all<K, T>(s: Seq<(K, T, u64)>, now: u64)
    ensures
        forall|k: int| 0 <= k < kept_of(s, now).len() ==> kept_of(s, now)[k].2 > now,
    decreases s.len(),
{
    if s.len() > 0 {
        lemma_kept_of_all(s.drop_last(), now);
        let p = kept_of(s.drop_last(), now);
        assert forall|k: int| 0 <= k < kept_of(s, now).len() implies kept_of(s, now)[k].2
            > now by {
            if s.last().2 > now {
                assert(kept_of(s, now) == p.push(s.last()));
                if k < p.len() {
                    assert(kept_of(s, now)[k] == p[k]);
                }
            } else {
                assert(kept_of(s, now) == p);
            }
        }
    }
}

/// A slot whose items all expire after `now` has nothing expired.
proof fn lemma_expired_of_empty<K, T>(s: Seq<(K, T, u64)>, now: u64)
    requires
        forall|k: int| 0 <= k < s.len() ==> s[k].2 > now,
    ensures
        expired_of(s, now) == Seq::<(K, T)>::empty(),
    decreases s.len(),
{
    if s.len() > 0 {
        assert(forall|k: int| 0 <= k < s.drop_last().len() ==> s.drop_last()[k].2 > now);
        lemma_expired_of_empty(s.drop_last(), now);
    }
}

/// A wheel whose items all expire after `now` has nothing expired.
proof fn lemma_flat_expired_empty<K, T>(slots: Seq<Seq<(K, T, u64)>>, now: u64)
    requires
        forall|i: int, k: int|
            0 <= i < slots.len() && 0 <= k < slots[i].len() ==> slots[i][k].2 > now,
    ensures
        flat_expired(slots, now) == Seq::<(K, T)>::empty(),
    decreases slots.len(),
{
    if slots.len() > 0 {
        assert(forall|i: int, k: int|
            0 <= i < slots.drop_last().len() && 0 <= k < slots.drop_last()[i].len()
                ==> slots.drop_last()[i][k].2 > now);
        lemma_flat_expired_empty(slots.drop_last(), now);
        assert(forall|k: int|
            0 <= k < slots.last().len() ==> slots.last()[k].2 > now);
        lemma_expired_of_empty(slots.last(), now);
        assert(flat_expired(slots, now) =~= Seq::<(K, T)>::empty());
    }
}

/// Saturating multiplication on nanosecond counts.
pub open spec fn sat_mul(a: u64, b: u64) -> u64 {
    if a * b > u64::MAX {
        u64::MAX
    } else {
        (a * b) as u64
    }
}

/// Executable saturating multiplication, exactly `sat_mul`.
fn mul_sat(a: u64, b: u64) -> (r: u64)
    ensures
        r == sat_mul(a, b),
{
    proof {
        assert((a as int) * (b as int) <= u128::MAX as int) by (nonlinear_arith)
            requires
                a <= u64::MAX,
                b <= u64::MAX,
        ;
    }
    let p = (a as u128) * (b as u128);
    if p > u64::MAX as u128 {
        u64::MAX
    } else {
        p as u64
    }
}

/// Moves every element of `src` onto the end of `dst`, preserving order.
fn append_all<A>(dst: &mut Vec<A>, src: Vec<A>)
    ensures
        final(dst)@ == old(dst)@ + src@,
{
    let mut rest = src;
    loop
        invariant
            dst@ + rest@ == old(dst)@ + src@,
        ensures
            rest@.len() == 0,
            dst@ + rest@ == old(dst)@ + src@,
        decreases rest@.len(),
    {
        if rest.len() == 0 {
            break;
        }
        let a = rest.remove(0);
        dst.push(a);
        proof {
            assert(dst@ + rest@ =~= old(dst)@ + src@);
        }
    }
    proof {
        assert(dst@ =~= dst@ + rest@);
    }
}

/// Saturating addition on counts.
pub open spec fn sat_add_usize(a: usize, b: usize) -> usize {
    if a + b > usize::MAX {
        usize::MAX
    } else {
        (a + b) as usize
    }
}

/// Executable saturating addition on counts, exactly `sat_add_usize`.
pub(crate) fn add_sat_usize(a: usize, b: usize) -> (r: usize)
    ensures
        r == sat_add_usize(a, b),
{
    if a <= usize::MAX - b {
        a + b
    } else {
        usize::MAX
    }
}

/// The number of messages filed in the wheel: the slot lengths summed.
pub open spec fn wheel_count<K, T>(slots: Seq<Seq<(K, T, u64)>>) -> int
    decreases slots.len(),
{
    if slots.len() == 0 {
        0
    } else {
        wheel_count(slots.drop_last()) + slots.last().len()
    }
}

/// A count clamped to what a `usize` can hold.
pub open spec fn clamp_usize(x: int) -> int {
    if x > usize::MAX {
        usize::MAX as int
    } else {
        x
    }
}

/// Statistics about a staleness detector.
#[derive(Debug, Clone, Copy, PartialEq, Eq, Structural)]
pub struct StalenessStats {
    /// Number of heap entries (coalesced messages count once).
    pub heap_size: usize,
    /// Number of messages filed in the timer wheel.
    pub timer_wheel_size: usize,
    /// Heap entries plus wheel messages.
    pub total_tracked: usize,
}

/// How adding a message changes a staleness detector: it lands in the heap
/// when the heap accepts it, else in the timer wheel; the wheel's geometry
/// and the configuration are untouched.
pub open spec fn detector_add_post<K, T>(
    pre: StalenessDetector<K, T>,
    post: StalenessDetector<K, T>,
    key: K,
    message: T,
    timeout: u64,
    now: u64,
) -> bool {
    &&& post.config_spec() == pre.config_spec()
    &&& post.wheel_current_spec() == pre.wheel_current_spec()
    &&& post.wheel_start_spec() == pre.wheel_start_spec()
    &&& post.wheel_slot_duration_spec() == pre.wheel_slot_duration_spec()
    &&& if pre.heap_accepts(timeout, now) {
        &&& post.wheel_spec() == pre.wheel_spec()
        &&& heap_add_post(
            pre.heap_spec(),
            post.heap_spec(),
            key,
            message,
            sat_add(now, timeout),
            pre.config_spec().precision_gap,
        )
    } else {
        &&& post.heap_spec() == pre.heap_spec()
        &&& wheel_add_post(
            pre.wheel_spec(),
            post.wheel_spec(),
            key,
            message,
            sat_add(now, timeout),
            pre.wheel_current_spec(),
            pre.wheel_start_spec(),
            pre.wheel_slot_duration_spec(),
        )
    }
}

/// The staleness detector: a constrained heap for near-term expirations with
/// a timer wheel for the overflow.  Callers poll `drain_expired` with the
/// current time; nothing here reads a clock.
pub struct StalenessDetector<K, T> {
    constrained_heap: ConstrainedHeap<K, T>,
    timer_wheel: TimerWheel<K, T>,
    config: StalenessConfig,
}

impl<K, T> StalenessDetector<K, T> {
    /// The heap entries, earliest expiration first.
    pub closed spec fn heap_spec(&self) -> Seq<(u64, Seq<(K, T)>)> {
        self.constrained_heap.entries_spec()
    }

    /// The timer-wheel slots.
    pub closed spec fn wheel_spec(&self) -> Seq<Seq<(K, T, u64)>> {
        self.timer_wheel.slots_spec()
    }

    /// The configuration the detector was built with.
    pub closed spec fn config_spec(&self) -> StalenessConfig {
        self.config
    }

    /// Well-formedness of both indexes.
    pub closed spec fn wf(&self) -> bool {
        &&& self.constrained_heap.wf()
        &&& self.timer_wheel.wf()
        &&& self.constrained_heap.config_spec() == self.config
    }

    /// The wheel's current slot.
    pub closed spec fn wheel_current_spec(&self) -> int {
        self.timer_wheel.current_slot_spec()
    }

    /// The wheel's start instant.
    pub closed spec fn wheel_start_spec(&self) -> u64 {
        self.timer_wheel.start_time_spec()
    }

    /// The wheel's slot duration.
    pub closed spec fn wheel_slot_duration_spec(&self) -> u64 {
        self.timer_wheel.slot_duration_spec()
    }

    /// Whether the heap, rather than the wheel, takes a message with dwell
    /// `timeout` registered at `now`.
    pub open spec fn heap_accepts(&self, timeout: u64, now: u64) -> bool {
        &&& timeout <= self.config_spec().heap_time_horizon
        &&& ((exists|i: int|
            0 <= i < self.heap_spec().len() && within_gap(
                self.heap_spec()[i].0,
                sat_add(now, timeout),
                self.config_spec().precision_gap,
            )) || self.heap_spec().len() < self.config_spec().heap_max_size)
    }

    /// Everything the detector hands back when drained at `now`: the
    /// expired heap members, then the expired wheel items, each in index
    /// order.
    pub open spec fn expired_payload(&self, now: u64) -> Seq<(K, T)> {
        heap_expired(self.heap_spec(), now) + flat_expired(self.wheel_spec(), now)
    }

    /// Nothing tracked expires at or before `now`.
    pub open spec fn no_expired(&self, now: u64) -> bool {
        &&& forall|i: int| 0 <= i < self.heap_spec().len() ==> self.heap_spec()[i].0 > now
        &&& forall|i: int, k: int|
            0 <= i < self.wheel_spec().len() && 0 <= k < self.wheel_spec()[i].len()
                ==> self.wheel_spec()[i][k].2 > now
    }

    /// Creates an empty detector started at `now`.
    pub fn new(config: StalenessConfig, now: u64) -> (r: Self)
        requires
            config.wf(),
        ensures
            r.wf(),
            r.config_spec() == config,
            r.heap_spec().len() == 0,
            forall|i: int| 0 <= i < r.wheel_spec().len() ==> r.wheel_spec()[i].len() == 0,
            r.wheel_spec().len() == config.timer_wheel_slots,
    {
        StalenessDetector {
            constrained_heap: ConstrainedHeap::new(config),
            timer_wheel: TimerWheel::new(
                config.timer_wheel_slots,
                config.timer_wheel_slot_duration,
                now,
            ),
            config,
        }
    }

    /// Indexes a message expiring `staleness_timeout` after `now`: into the
    /// heap when the heap accepts it, else into the timer wheel.
    pub fn add_message(&mut self, key: K, message: T, staleness_timeout: u64, now: u64)
        requires
            old(self).wf(),
        ensures
            final(self).wf(),
            detector_add_post(*old(self), *final(self), key, message, staleness_timeout, now),
    {
        match self.constrained_heap.try_add(key, message, staleness_timeout, now) {
            Ok(()) => {},
            Err((key, message)) => {
                let expiration_time = crate::types::add_sat(now, staleness_timeout);
                self.timer_wheel.add_message(key, message, expiration_time);
            },
        }
    }

    /// Whether any timer-wheel slot holds a pending item.
    pub open spec fn wheel_occupied(&self) -> bool {
        exists|i: int| 0 <= i < self.wheel_spec().len() && self.wheel_spec()[i].len() > 0
    }

    /// The boundary of the wheel slot after the current one.
    pub open spec fn wheel_boundary(&self) -> u64 {
        sat_add(
            self.wheel_start_spec(),
            sat_mul(self.wheel_slot_duration_spec(), (self.wheel_current_spec() + 1) as u64),
        )
    }

    /// The next instant anything tracked may be due: the earlier of the
    /// heap's top expiration and the wheel's next slot boundary, over the
    /// candidates that exist; `None` when nothing is tracked.
    pub open spec fn next_expiration_spec(&self) -> Option<u64> {
        if self.heap_spec().len() > 0 && self.wheel_occupied() {
            if self.heap_spec()[0].0 <= self.wheel_boundary() {
                Some(self.heap_spec()[0].0)
            } else {
                Some(self.wheel_boundary())
            }
        } else if self.heap_spec().len() > 0 {
            Some(self.heap_spec()[0].0)
        } else if self.wheel_occupied() {
            Some(self.wheel_boundary())
        } else {
            None
        }
    }

    /// The earliest of the heap's next expiration and the wheel's next
    /// occupied slot boundary, if either exists.
    pub fn next_expiration(&self) -> (r: Option<u64>)
        requires
            self.wf(),
        ensures
            r == self.next_expiration_spec(),
    {
        let heap_next = self.constrained_heap.next_expiration();
        let wheel_next = self.timer_wheel.next_slot_time();
        proof {
            match wheel_next {
                Some(w) => {
                    let i = choose|i: int|
                        0 <= i < self.timer_wheel.slots_spec().len()
                            && self.timer_wheel.slots_spec()[i].len() > 0;
                    assert(self.wheel_spec()[i].len() > 0);
                    assert(self.wheel_occupied());
                    assert(w == self.wheel_boundary());
                },
                None => {
                    if self.wheel_occupied() {
                        let i = choose|i: int|
                            0 <= i < self.wheel_spec().len() && self.wheel_spec()[i].len() > 0;
                        assert(false);
                    }
                },
            }
            match heap_next {
                Some(h) => {
                    assert(self.heap_spec().len() > 0 && h == self.heap_spec()[0].0);
                },
                None => {
                    assert(self.heap_spec().len() == 0);
                },
            }
        }
        match (heap_next, wheel_next) {
            (Some(h), Some(w)) => if h <= w {
                Some(h)
            } else {
                Some(w)
            },
            (Some(h), None) => Some(h),
            (None, Some(w)) => Some(w),
            (None, None) => None,
        }
    }

    /// Removes and returns every tracked message that has expired by `now`:
    /// the heap's expired members first, then the wheel's, each in index
    /// order.  Afterwards nothing tracked expires at or before `now`.
    pub fn drain_expired(&mut self, now: u64) -> (r: Vec<(K, T)>)
        requires
            old(self).wf(),
        ensures
            final(self).wf(),
            final(self).config_spec() == old(self).config_spec(),
            final(self).no_expired(now),
            r@ == old(self).expired_payload(now),
            exists|n: int|
                {
                    &&& 0 <= n <= old(self).heap_spec().len()
                    &&& (forall|i: int| 0 <= i < n ==> old(self).heap_spec()[i].0 <= now)
                    &&& final(self).heap_spec() == old(self).heap_spec().skip(n)
                    &&& r@ == flat_members(old(self).heap_spec().take(n)) + flat_expired(
                        old(self).wheel_spec(),
                        now,
                    )
                },
            final(self).wheel_spec().len() == old(self).wheel_spec().len(),
            final(self).wheel_current_spec() == sat_sub(now, old(self).wheel_start_spec()) as int
                / old(self).wheel_slot_duration_spec() as int % old(
                self,
            ).wheel_spec().len() as int,
            final(self).wheel_start_spec() == old(self).wheel_start_spec(),
            final(self).wheel_slot_duration_spec() == old(self).wheel_slot_duration_spec(),
            forall|i: int|
                0 <= i < old(self).wheel_spec().len() ==> final(self).wheel_spec()[i] == kept_of(
                    old(self).wheel_spec()[i],
                    now,
                ),
    {
        let ghost pre_heap = self.constrained_heap.entries_spec();
        let mut r = self.constrained_heap.drain_expired(now);
        let ghost mid_r = r@;
        let more = self.timer_wheel.advance_and_collect_expired(now);
        let ghost more_seq = more@;
        append_all(&mut r, more);
        proof {
            let n = choose|n: int|
                {
                    &&& 0 <= n <= pre_heap.len()
                    &&& (forall|i: int| 0 <= i < n ==> pre_heap[i].0 <= now)
                    &&& self.constrained_heap.entries_spec() == pre_heap.skip(n)
                    &&& mid_r == flat_members(pre_heap.take(n))
                };
            assert(r@ == mid_r + more_seq);
            assert({
                &&& 0 <= n <= old(self).heap_spec().len()
                &&& (forall|i: int| 0 <= i < n ==> old(self).heap_spec()[i].0 <= now)
                &&& final(self).heap_spec() == old(self).heap_spec().skip(n)
                &&& r@ == flat_members(old(self).heap_spec().take(n)) + flat_expired(
                    old(self).wheel_spec(),
                    now,
                )
            });
        }
        r
    }

    /// Current index sizes.
    pub fn stats(&self) -> (r: StalenessStats)
        ensures
            r.heap_size == self.heap_spec().len(),
            r.timer_wheel_size == clamp_usize(wheel_count(self.wheel_spec())),
            r.total_tracked == clamp_usize(
                self.heap_spec().len() + clamp_usize(wheel_count(self.wheel_spec())),
            ),
    {
        let heap_size = self.constrained_heap.len();
        let n = self.timer_wheel.slot_count();
        let mut wheel_size: usize = 0;
        let mut i: usize = 0;
        while i < n
            invariant
                n == self.wheel_spec().len(),
                i <= n,
                wheel_size == clamp_usize(wheel_count(self.wheel_spec().take(i as int))),
            decreases n - i,
        {
            let len_i = self.timer_wheel.slot_len(i);
            wheel_size = add_sat_usize(wheel_size, len_i);
            proof {
                assert(self.wheel_spec().take(i + 1).drop_last() =~= self.wheel_spec().take(
                    i as int,
                ));
                assert(self.wheel_spec().take(i + 1).last() == self.wheel_spec()[i as int]);
            }
            i = i + 1;
        }
        proof {
            assert(self.wheel_spec().take(n as int) =~= self.wheel_spec());
        }
        let total_tracked = add_sat_usize(heap_size, wheel_size);
        StalenessStats { heap_size, timer_wheel_size: wheel_size, total_tracked }
    }

    /// Forgets every tracked message.
    pub fn clear(&mut self)
        requires
            old(self).wf(),
        ensures
            final(self).wf(),
            final(self).config_spec() == old(self).config_spec(),
            final(self).heap_spec().len() == 0,
            forall|i: int|
                0 <= i < final(self).wheel_spec().len() ==> final(self).wheel_spec()[i].len()
                    == 0,
            final(self).wheel_spec().len() == old(self).wheel_spec().len(),
    {
        self.constrained_heap.clear();
        self.timer_wheel.clear_slots();
    }
}

/// A detector left by `drain_expired` returns nothing when drained again at
/// the same instant (or any earlier one): with every tracked expiration
/// above `now`, no heap entry and no wheel item is due.  So messages drained
/// once never reappear in a second call.
pub proof fn lemma_drained_detector_yields_nothing<K, T>(
    d: StalenessDetector<K, T>,
    now: u64,
    again: u64,
)
    requires
        d.no_expired(now),
        again <= now,
    ensures
        forall|i: int| 0 <= i < d.heap_spec().len() ==> d.heap_spec()[i].0 > again,
        flat_expired(d.wheel_spec(), again) == Seq::<(K, T)>::empty(),
{
    lemma_flat_expired_empty(d.wheel_spec(), again);
}

} // verus!
