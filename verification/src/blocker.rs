//! What is tracked of one blocking backend.

use crate::lock_mode::LockMode;
use crate::ratio::{Fraction, Ratio};
use crate::scoring::score;
#[allow(unused_imports)]
use crate::scoring::score_value;
use crate::settings::{Settings, Weights, HISTORY_LEN};
use vstd::prelude::*;

verus! {

/// The oid that stands for "no relation".
pub const INVALID_OID: u32 = 0;

/// Microseconds in a second.
pub const MICROS_PER_SECOND: u64 = 1_000_000;

/// One slot of the tracking table. It holds plain data only, so that it can be
/// placed in shared memory as it is. Times are microseconds.
#[derive(Copy, Clone, Debug)]
pub struct BlockerState {
    pub blocking_pid: i32,
    pub relation_oid: u32,
    pub lock_mode: LockMode,
    pub lock_acquired_at: Option<i64>,
    pub query_fingerprint: i64,
    pub waiter_history: [u16; HISTORY_LEN],
    pub history_head: usize,
    pub history_len: usize,
    pub baseline_hold_micros: u64,
    /// Longest transitive wait-chain hanging off this blocker (0 = every waiter
    /// is queued directly on it).
    pub cascade_depth: u16,
    /// Set once an alert has fired for the current above-threshold episode, and
    /// cleared as soon as the score drops back below the threshold.
    pub alerted: bool,
    pub in_use: bool,
}

/// The model of a slot: its fields, with the ring buffer read out as the counts
/// that it holds, oldest first.
#[verifier::ext_equal]
pub struct BlockerModel {
    pub blocking_pid: i32,
    pub relation_oid: u32,
    pub lock_mode: LockMode,
    pub lock_acquired_at: Option<i64>,
    pub query_fingerprint: i64,
    pub recent: Seq<u16>,
    pub baseline_hold_micros: u64,
    pub cascade_depth: u16,
    pub alerted: bool,
    pub in_use: bool,
}

/// The counts kept after `count` is added to `recent`: the history grows until
/// it holds `cap` counts, and from then on each new count drops the oldest.
pub open spec fn pushed(recent: Seq<u16>, count: u16, cap: int) -> Seq<u16> {
    if recent.len() < cap {
        recent.push(count)
    } else {
        recent.drop_first().push(count)
    }
}

/// The place in the ring buffer of the count with index `i`, oldest first.
pub open spec fn ring_index(head: int, len: int, i: int) -> int {
    (head + HISTORY_LEN - len + i) % (HISTORY_LEN as int)
}

/// What adding `count` does to the ring buffer: the count is written at the head
/// and nowhere else, the head moves on by one place, and the length grows up to
/// `cap`.
pub open spec fn ring_pushed(
    before: BlockerState,
    after: BlockerState,
    count: u16,
    cap: int,
) -> bool {
    &&& after.waiter_history@ == before.waiter_history@.update(before.history_head as int, count)
    &&& after.history_head == (before.history_head + 1) % (HISTORY_LEN as int)
    &&& after.history_len == if before.history_len < cap {
        before.history_len + 1
    } else {
        before.history_len as int
    }
}

impl BlockerModel {
    /// A free slot.
    pub open spec fn free() -> Self {
        BlockerModel {
            blocking_pid: 0,
            relation_oid: INVALID_OID,
            lock_mode: LockMode::AccessShare,
            lock_acquired_at: None,
            query_fingerprint: 0,
            recent: Seq::empty(),
            baseline_hold_micros: 0,
            cascade_depth: 0,
            alerted: false,
            in_use: false,
        }
    }

    /// A slot just taken for `pid`.
    pub open spec fn fresh(pid: i32) -> Self {
        BlockerModel { blocking_pid: pid, in_use: true, ..BlockerModel::free() }
    }

    /// The most recent count, zero where there is none.
    pub open spec fn current_waiter_count(self) -> int {
        if self.recent.len() == 0 {
            0
        } else {
            self.recent.last() as int
        }
    }

    /// Waiters gained per sample, averaged over the recent counts.
    pub open spec fn waiter_velocity(self) -> real {
        if self.recent.len() < 2 {
            0real
        } else {
            ((self.recent.last() - self.recent.first()) as real) / ((self.recent.len()
                - 1) as real)
        }
    }

    /// Microseconds for which the lock has been held at `now`; none where the
    /// start is not known or lies ahead.
    pub open spec fn hold_micros(self, now: i64) -> int {
        match self.lock_acquired_at {
            Some(started) => if now >= started {
                now - started
            } else {
                0
            },
            None => 0,
        }
    }

    /// Seconds for which the lock has been held at `now`.
    pub open spec fn hold_seconds(self, now: i64) -> real {
        (self.hold_micros(now) as real) / (MICROS_PER_SECOND as real)
    }
}

impl View for BlockerState {
    type V = BlockerModel;

    open spec fn view(&self) -> BlockerModel {
        BlockerModel {
            blocking_pid: self.blocking_pid,
            relation_oid: self.relation_oid,
            lock_mode: self.lock_mode,
            lock_acquired_at: self.lock_acquired_at,
            query_fingerprint: self.query_fingerprint,
            recent: Seq::new(
                self.history_len as nat,
                |i: int|
                    self.waiter_history@[ring_index(
                        self.history_head as int,
                        self.history_len as int,
                        i,
                    )],
            ),
            baseline_hold_micros: self.baseline_hold_micros,
            cascade_depth: self.cascade_depth,
            alerted: self.alerted,
            in_use: self.in_use,
        }
    }
}

impl Default for BlockerState {
    fn default() -> (r: Self)
        ensures
            r.wf(),
            r@ == BlockerModel::free(),
            r.ring_is_blank(),
            r.blocking_pid == 0 && r.relation_oid == 0 && r.lock_mode == LockMode::AccessShare,
            r.lock_acquired_at is None && r.query_fingerprint == 0,
            r.baseline_hold_micros == 0 && r.cascade_depth == 0,
            !r.alerted && !r.in_use,
            r.history_head == 0 && r.history_len == 0,
            forall|i: int| 0 <= i < 16 ==> #[trigger] r.waiter_history@[i] == 0,
    {
        let r = BlockerState {
            blocking_pid: 0,
            relation_oid: INVALID_OID,
            lock_mode: LockMode::AccessShare,
            lock_acquired_at: None,
            query_fingerprint: 0,
            waiter_history: [0;HISTORY_LEN],
            history_head: 0,
            history_len: 0,
            baseline_hold_micros: 0,
            cascade_depth: 0,
            alerted: false,
            in_use: false,
        };
        assert(r.waiter_history@ =~= Seq::new(HISTORY_LEN as nat, |i: int| 0u16));
        r
    }
}

impl BlockerState {
    /// The ring buffer's bookkeeping stays within the buffer.
    pub open spec fn wf(self) -> bool {
        self.history_head < HISTORY_LEN && self.history_len <= HISTORY_LEN
    }

    /// The ring buffer of a slot that has no history yet.
    pub open spec fn ring_is_blank(self) -> bool {
        &&& self.history_head == 0
        &&& self.history_len == 0
        &&& self.waiter_history@ == Seq::new(HISTORY_LEN as nat, |i: int| 0u16)
    }

    /// Adds a waiter count to the history. The history holds at most the
    /// configured window, and the buffer itself never changes its size.
    pub fn push_waiter_count(&mut self, count: u16, settings: &Settings)
        requires
            old(self).wf(),
        ensures
            final(self).wf(),
            final(self)@ == (BlockerModel {
                recent: pushed(old(self)@.recent, count, settings.history_cap()),
                ..old(self)@
            }),
            ring_pushed(*old(self), *final(self), count, settings.history_cap()),
            final(self).waiter_history@ == old(self).waiter_history@.update(
                old(self).history_head as int,
                count,
            ),
            final(self).history_head == (old(self).history_head + 1) % 16,
            final(self).history_len == old(self).history_len || final(self).history_len
                == old(self).history_len + 1,
            final(self).history_len > old(self).history_len <==> (old(self).history_len < 16
                && old(self).history_len < settings.history_window) || old(self).history_len == 0,
            final(self).blocking_pid == old(self).blocking_pid,
            final(self).relation_oid == old(self).relation_oid,
            final(self).lock_mode == old(self).lock_mode,
            final(self).lock_acquired_at == old(self).lock_acquired_at,
            final(self).query_fingerprint == old(self).query_fingerprint,
            final(self).baseline_hold_micros == old(self).baseline_hold_micros,
            final(self).cascade_depth == old(self).cascade_depth,
            final(self).alerted == old(self).alerted,
            final(self).in_use == old(self).in_use,
    {
        self.waiter_history[self.history_head] = count;
        self.history_head = (self.history_head + 1) % HISTORY_LEN;
        if self.history_len < settings.effective_history_window() {
            self.history_len = self.history_len + 1;
        }
        proof {
            lemma_pushed_counts(*old(self), *self, count, settings.history_cap());
        }
    }

    /// The waiter count of the latest sample.
    pub fn current_waiter_count(&self) -> (r: i32)
        requires
            self.wf(),
        ensures
            r == self@.current_waiter_count(),
            self.history_len == 0 ==> r == 0,
            self.history_len > 0 ==> r == self.waiter_history@[(self.history_head + 15) % 16],
    {
        if self.history_len == 0 {
            return 0;
        }
        let last_idx: usize = (self.history_head + HISTORY_LEN - 1) % HISTORY_LEN;
        self.waiter_history[last_idx] as i32
    }

    /// Waiters gained per sample tick, averaged over the recent window. This
    /// separates a steady queue from one that is still accelerating.
    pub fn waiter_velocity(&self) -> (r: Ratio)
        requires
            self.wf(),
        ensures
            r.value() == self@.waiter_velocity(),
            1 <= r.den < HISTORY_LEN,
            -0xffff <= r.num <= 0xffff,
            self.history_len < 2 ==> r.num == 0,
            self.history_len >= 2 ==> r.den == self.history_len - 1 && r.num
                == self.waiter_history@[(self.history_head + 15) % 16] - self.waiter_history@[(
            self.history_head + 16 - self.history_len) % 16],
    {
        if self.history_len < 2 {
            assert(0int as real / 1int as real == 0real) by (nonlinear_arith);
            return Ratio { num: 0, den: 1 };
        }
        let oldest_idx: usize = (self.history_head + HISTORY_LEN - self.history_len)
            % HISTORY_LEN;
        let newest_idx: usize = (self.history_head + HISTORY_LEN - 1) % HISTORY_LEN;
        let delta: i128 = self.waiter_history[newest_idx] as i128
            - self.waiter_history[oldest_idx] as i128;
        Ratio { num: delta, den: (self.history_len - 1) as i128 }
    }

    /// Seconds for which the lock has been held at `now`, never negative.
    pub fn hold_seconds(&self, now: i64) -> (r: Ratio)
        ensures
            r.num == self@.hold_micros(now),
            r.den == MICROS_PER_SECOND,
            r.value() == self@.hold_seconds(now),
            0 <= r.num <= u64::MAX,
            r.den == 1_000_000,
            self.lock_acquired_at is None ==> r.num == 0,
            self.lock_acquired_at matches Some(started) ==> (now >= started ==> r.num == now
                - started) && (now < started ==> r.num == 0),
    {
        let micros: i128 = match self.lock_acquired_at {
            Some(started) => if now >= started {
                now as i128 - started as i128
            } else {
                0
            },
            None => 0,
        };
        Ratio { num: micros, den: MICROS_PER_SECOND as i128 }
    }

    /// Composite risk score between zero and one, a plain weighted sum under the
    /// given weights.
    pub fn risk_score(&self, now: i64, weights: &Weights) -> (r: Fraction)
        requires
            self.wf(),
        ensures
            r.wf(),
            r.value() == score_value(self@, now, *weights),
            r.num@ <= r.den@,
    {
        score(self, now, weights)
    }
}

/// The counts of a slot after its ring buffer has taken one more.
proof fn lemma_pushed_counts(before: BlockerState, after: BlockerState, count: u16, cap: int)
    requires
        before.wf(),
        1 <= cap <= HISTORY_LEN,
        ring_pushed(before, after, count, cap),
    ensures
        after@.recent == pushed(before@.recent, count, cap),
{
    let head = before.history_head as int;
    let len = before.history_len as int;
    let dropped = if len < cap {
        0int
    } else {
        1
    };
    let next = pushed(before@.recent, count, cap);
    assert(after@.recent.len() == next.len());
    assert forall|i: int| 0 <= i < next.len() implies after@.recent[i] == next[i] by {
        lemma_place(head, len, i + dropped);
        let place = ring_index(after.history_head as int, after.history_len as int, i);
        assert(after.history_head == if head == 15 {
            0
        } else {
            head + 1
        });
        assert(place == ring_index(head, len, i + dropped));
        assert(after@.recent[i] == after.waiter_history@[place]);
        if i + dropped < len {
            assert(before@.recent[i + dropped] == before.waiter_history@[place]);
        }
    }
    assert(after@.recent =~= next);
}

/// Of the places that hold the counts and the one behind them, the head is the
/// last.
proof fn lemma_place(head: int, len: int, i: int)
    requires
        0 <= head < 16,
        0 <= i <= len <= 16,
        len - i < 16,
    ensures
        0 <= ring_index(head, len, i) < 16,
        ring_index(head, len, i) == head <==> i == len,
{
}

/// A new count is the current one, the history stays within its window, and the
/// counts that it keeps are the latest ones in their order.
pub proof fn law_history_keeps_the_latest(recent: Seq<u16>, count: u16, cap: int)
    requires
        1 <= cap,
        recent.len() <= cap,
    ensures
        pushed(recent, count, cap).len() <= cap,
        pushed(recent, count, cap).last() == count,
        forall|k: int|
            1 <= k < pushed(recent, count, cap).len() ==> pushed(recent, count, cap)[
                pushed(recent, count, cap).len() - 1 - k
            ] == #[trigger] recent[recent.len() - k],
{
}

/// After any number of counts pushed onto a slot without history, under one
/// window, the head stands at their number modulo the size of the buffer, and the
/// buffer holds exactly the most recent counts that fit the window, in order.
pub proof fn law_ring_holds_the_latest(states: Seq<BlockerState>, counts: Seq<u16>, cap: int)
    requires
        1 <= cap <= HISTORY_LEN,
        states.len() == counts.len() + 1,
        states[0].ring_is_blank(),
        forall|k: int|
            0 <= k < counts.len() ==> ring_pushed(
                states[k],
                states[k + 1],
                #[trigger] counts[k],
                cap,
            ),
    ensures
        ({
            let n = counts.len() as int;
            let last = states[n];
            &&& last.history_head == n % (HISTORY_LEN as int)
            &&& last.history_len == if n < cap {
                n
            } else {
                cap
            }
            &&& forall|k: int|
                0 <= k < last.history_len ==> #[trigger] counts[n - 1 - k]
                    == last.waiter_history@[(last.history_head + HISTORY_LEN - 1 - k) % (
                HISTORY_LEN as int)]
        }),
{
    lemma_ring_places(states, counts, cap);
    let n = counts.len() as int;
    let last = states[n];
    assert forall|k: int| 0 <= k < last.history_len implies #[trigger] counts[n - 1 - k]
        == last.waiter_history@[(last.history_head + HISTORY_LEN - 1 - k) % (HISTORY_LEN as int)] by {
        let m = n - 1 - k;
        assert(last.waiter_history@[m % (HISTORY_LEN as int)] == counts[m]);
        assert((n % 16 + 16 - 1 - k) % 16 == (n - 1 - k) % 16);
    }
}

/// The count with index `m` stands at the place `m` modulo the size of the buffer,
/// until it is overwritten.
proof fn lemma_ring_places(states: Seq<BlockerState>, counts: Seq<u16>, cap: int)
    requires
        1 <= cap <= HISTORY_LEN,
        states.len() == counts.len() + 1,
        states[0].ring_is_blank(),
        forall|k: int|
            0 <= k < counts.len() ==> ring_pushed(
                states[k],
                states[k + 1],
                #[trigger] counts[k],
                cap,
            ),
    ensures
        ({
            let n = counts.len() as int;
            let last = states[n];
            &&& last.history_head == n % (HISTORY_LEN as int)
            &&& last.history_len == if n < cap {
                n
            } else {
                cap
            }
            &&& forall|m: int|
                0 <= m < n && n - HISTORY_LEN <= m ==> last.waiter_history@[m % (
                HISTORY_LEN as int)] == #[trigger] counts[m]
        }),
    decreases counts.len(),
{
    if counts.len() > 0 {
        let n = counts.len() as int;
        let fewer = counts.drop_last();
        let earlier = states.drop_last();
        assert forall|k: int| 0 <= k < fewer.len() implies ring_pushed(
            earlier[k],
            earlier[k + 1],
            #[trigger] fewer[k],
            cap,
        ) by {
            assert(fewer[k] == counts[k]);
        }
        lemma_ring_places(earlier, fewer, cap);
        let before = states[n - 1];
        let last = states[n];
        assert(earlier[n - 1] == before);
        assert(ring_pushed(before, last, counts[n - 1], cap));
        assert forall|m: int| 0 <= m < n && n - HISTORY_LEN <= m implies last.waiter_history@[m % (
        HISTORY_LEN as int)] == #[trigger] counts[m] by {
            if m < n - 1 {
                assert(fewer[m] == counts[m]);
                assert(m % 16 != (n - 1) % 16);
            }
        }
    }
}

/// A queue that does not change has no velocity.
pub proof fn law_steady_queue_has_no_velocity(slot: BlockerModel)
    requires
        slot.recent.len() > 0 ==> slot.recent.first() == slot.recent.last(),
    ensures
        slot.waiter_velocity() == 0real,
{
    if slot.recent.len() >= 2 {
        crate::fraction::lemma_quotient(0real, (slot.recent.len() - 1) as real, 0real);
    }
}

/// The model of a slot holds the fields of the slot, and its counts are those of
/// the ring buffer, the latest one just behind the head. A slot is well formed
/// exactly while its head and its length lie within the buffer.
pub proof fn law_model_reads_the_slot(slot: BlockerState, k: int)
    ensures
        slot@.recent.len() == slot.history_len,
        0 <= k < slot.history_len ==> slot@.recent[slot.history_len - 1 - k]
            == slot.waiter_history@[(slot.history_head + 15 - k) % 16],
        slot@.blocking_pid == slot.blocking_pid,
        slot@.relation_oid == slot.relation_oid,
        slot@.lock_mode == slot.lock_mode,
        slot@.lock_acquired_at == slot.lock_acquired_at,
        slot@.query_fingerprint == slot.query_fingerprint,
        slot@.baseline_hold_micros == slot.baseline_hold_micros,
        slot@.cascade_depth == slot.cascade_depth,
        slot@.alerted == slot.alerted,
        slot@.in_use == slot.in_use,
        slot.wf() <==> slot.history_head < 16 && slot.history_len <= 16,
{
}

/// What is read off the counts: the current count is the latest one, and the
/// velocity times the number of steps is what the queue has gained over them. With
/// fewer than two counts there is no velocity.
pub proof fn law_velocity_is_the_mean_gain(slot: BlockerModel)
    ensures
        slot.recent.len() == 0 ==> slot.current_waiter_count() == 0,
        slot.recent.len() > 0 ==> slot.current_waiter_count() == slot.recent[slot.recent.len()
            - 1],
        slot.recent.len() < 2 ==> slot.waiter_velocity() == 0real,
        slot.recent.len() >= 2 ==> slot.waiter_velocity() * ((slot.recent.len() - 1) as real) == (
        slot.recent[slot.recent.len() - 1] - slot.recent[0]) as real,
{
    if slot.recent.len() >= 2 {
        crate::fraction::lemma_give_back(
            (slot.recent[slot.recent.len() - 1] - slot.recent[0]) as real,
            (slot.recent.len() - 1) as real,
        );
    }
}

/// One more count: it comes last, what was kept before it keeps its order, and a
/// count is dropped only where the window is full, the oldest one then.
pub proof fn law_push_adds_one_count(recent: Seq<u16>, count: u16, cap: int)
    requires
        1 <= cap,
    ensures
        recent.len() < cap ==> pushed(recent, count, cap).len() == recent.len() + 1,
        recent.len() >= cap ==> pushed(recent, count, cap).len() == recent.len(),
        pushed(recent, count, cap)[pushed(recent, count, cap).len() - 1] == count,
        forall|i: int|
            0 <= i < recent.len() && recent.len() < cap ==> pushed(recent, count, cap)[i]
                == #[trigger] recent[i],
        forall|i: int|
            1 <= i < recent.len() && recent.len() >= cap ==> pushed(recent, count, cap)[i - 1]
                == #[trigger] recent[i],
{
}

/// The hold time is the time since the lock was taken: none where that is not
/// known or still ahead, and afterwards as much more as the clock has moved on.
pub proof fn law_hold_time_follows_the_clock(slot: BlockerModel, now: i64, later: i64)
    requires
        now <= later,
    ensures
        slot.lock_acquired_at is None ==> slot.hold_micros(now) == 0,
        slot.lock_acquired_at matches Some(started) ==> (now >= started ==> slot.hold_micros(now)
            == now - started && slot.hold_micros(later) - slot.hold_micros(now) == later - now)
            && (now <= started ==> slot.hold_micros(now) == 0),
        slot.hold_seconds(now) * 1_000_000real == slot.hold_micros(now) as real,
{
    crate::fraction::lemma_give_back(slot.hold_micros(now) as real, 1_000_000real);
}

/// A free slot has nothing in it, and a slot just taken has only its pid.
pub proof fn law_new_slots_are_empty(pid: i32)
    ensures
        ({
            let free = BlockerModel::free();
            let fresh = BlockerModel::fresh(pid);
            &&& free.blocking_pid == 0 && !free.in_use
            &&& fresh.blocking_pid == pid && fresh.in_use
            &&& free.relation_oid == 0 && fresh.relation_oid == 0
            &&& free.lock_mode == LockMode::AccessShare && fresh.lock_mode
                == LockMode::AccessShare
            &&& free.lock_acquired_at is None && fresh.lock_acquired_at is None
            &&& free.query_fingerprint == 0 && fresh.query_fingerprint == 0
            &&& free.recent.len() == 0 && fresh.recent.len() == 0
            &&& free.baseline_hold_micros == 0 && fresh.baseline_hold_micros == 0
            &&& free.cascade_depth == 0 && fresh.cascade_depth == 0
            &&& !free.alerted && !fresh.alerted
        }),
{
}

} // verus!
