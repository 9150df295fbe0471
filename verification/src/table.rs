//! The fixed-size table of tracked blockers.

use crate::blocker::{BlockerModel, BlockerState};
use crate::pids::contains_pid;
use crate::ratio::{Decimal, Fraction};
#[allow(unused_imports)]
use crate::scoring::score_value;
use crate::settings::{Settings, Weights, MAX_BLOCKERS};
use vstd::prelude::*;

verus! {

/// The tracking table: a fixed number of slots, some of them in use.
#[derive(Copy, Clone, Debug)]
pub struct BlockerTable {
    pub slots: [BlockerState; MAX_BLOCKERS],
}

/// Whether the slot is in use for `pid`.
pub open spec fn tracks(slot: BlockerModel, pid: i32) -> bool {
    slot.in_use && slot.blocking_pid == pid
}

/// `i` is the first slot that tracks `pid`.
pub open spec fn first_tracking(slots: Seq<BlockerModel>, pid: i32, i: int) -> bool {
    &&& 0 <= i < slots.len()
    &&& tracks(slots[i], pid)
    &&& forall|j: int| 0 <= j < i ==> !tracks(#[trigger] slots[j], pid)
}

/// `i` is the first free slot.
pub open spec fn first_free(slots: Seq<BlockerModel>, i: int) -> bool {
    &&& 0 <= i < slots.len()
    &&& !slots[i].in_use
    &&& forall|j: int| 0 <= j < i ==> (#[trigger] slots[j]).in_use
}

/// Whether some slot tracks `pid`.
pub open spec fn is_tracked(slots: Seq<BlockerModel>, pid: i32) -> bool {
    exists|i: int| 0 <= i < slots.len() && tracks(#[trigger] slots[i], pid)
}

/// `i` is the slot that `pid` is given: the one that tracks it, or else the first
/// free one.
pub open spec fn is_slot_for(slots: Seq<BlockerModel>, pid: i32, i: int) -> bool {
    if is_tracked(slots, pid) {
        first_tracking(slots, pid, i)
    } else {
        first_free(slots, i)
    }
}

/// No pid is tracked by two slots.
pub open spec fn pids_unique(slots: Seq<BlockerModel>) -> bool {
    forall|i: int, j: int|
        #![trigger slots[i], slots[j]]
        0 <= i < slots.len() && 0 <= j < slots.len() && slots[i].in_use && slots[j].in_use
            && slots[i].blocking_pid == slots[j].blocking_pid ==> i == j
}

/// How many slots are in use.
pub open spec fn in_use_count(slots: Seq<BlockerModel>) -> nat {
    slots.filter(|slot: BlockerModel| slot.in_use).len()
}

impl View for BlockerTable {
    type V = Seq<BlockerModel>;

    open spec fn view(&self) -> Seq<BlockerModel> {
        Seq::new(MAX_BLOCKERS as nat, |i: int| self.slots@[i]@)
    }
}

impl BlockerTable {
    /// Every slot is well formed.
    pub open spec fn wf(self) -> bool {
        forall|i: int| 0 <= i < MAX_BLOCKERS ==> (#[trigger] self.slots@[i]).wf()
    }

    /// A table with every slot free.
    pub fn new() -> (r: Self)
        ensures
            r.wf(),
            r@ == Seq::new(MAX_BLOCKERS as nat, |i: int| BlockerModel::free()),
            forall|i: int| 0 <= i < MAX_BLOCKERS ==> (#[trigger] r.slots@[i]).ring_is_blank(),
    {
        let r = BlockerTable { slots: [BlockerState::default();MAX_BLOCKERS] };
        assert(r@ =~= Seq::new(MAX_BLOCKERS as nat, |i: int| BlockerModel::free()));
        r
    }

    /// The first slot that tracks `pid`.
    fn find_tracking(&self, pid: i32) -> (r: Option<usize>)
        ensures
            match r {
                Some(i) => first_tracking(self@, pid, i as int),
                None => !is_tracked(self@, pid),
            },
    {
        for i in 0..MAX_BLOCKERS
            invariant
                forall|j: int| 0 <= j < i ==> !tracks(#[trigger] self@[j], pid),
        {
            if self.slots[i].in_use && self.slots[i].blocking_pid == pid {
                assert(tracks(self@[i as int], pid));
                return Some(i);
            }
            assert(!tracks(self@[i as int], pid));
        }
        None
    }

    /// The first free slot.
    fn find_free(&self) -> (r: Option<usize>)
        ensures
            match r {
                Some(i) => first_free(self@, i as int),
                None => forall|j: int| 0 <= j < MAX_BLOCKERS ==> (#[trigger] self@[j]).in_use,
            },
    {
        for i in 0..MAX_BLOCKERS
            invariant
                forall|j: int| 0 <= j < i ==> (#[trigger] self@[j]).in_use,
        {
            if !self.slots[i].in_use {
                assert(!self@[i as int].in_use);
                return Some(i);
            }
            assert(self@[i as int].in_use);
        }
        None
    }

    /// The number of slots in use.
    fn count_in_use(&self) -> (r: usize)
        ensures
            r == in_use_count(self@),
            r <= MAX_BLOCKERS,
    {
        let mut count: usize = 0;
        let ghost p = |slot: BlockerModel| slot.in_use;
        for i in 0..MAX_BLOCKERS
            invariant
                count <= i,
                p == |slot: BlockerModel| slot.in_use,
                count == self@.take(i as int).filter(p).len(),
        {
            proof {
                let s = self@.take(i + 1);
                assert(s.drop_last() =~= self@.take(i as int));
                assert(s.last() == self@[i as int]);
                reveal(Seq::filter);
            }
            if self.slots[i].in_use {
                count = count + 1;
            }
        }
        assert(self@.take(MAX_BLOCKERS as int) =~= self@);
        count
    }
}

/// Find-or-allocate a slot for a blocking pid and update it with `f`. Returns
/// false, and changes nothing, where `pid` is not tracked and the table already
/// holds as many blockers as the settings allow: callers log and skip.
pub fn upsert_blocker<F: FnOnce(&mut BlockerState)>(
    table: &mut BlockerTable,
    pid: i32,
    settings: &Settings,
    f: F,
) -> (r: bool)
    requires
        old(table).wf(),
        forall|b: &mut BlockerState|
            (*b).wf() && tracks((*b)@, pid) ==> #[trigger] call_requires(f, (b,)),
    ensures
        r == (is_tracked(old(table)@, pid) || in_use_count(old(table)@) < settings.tracked_cap()),
        !r ==> *final(table) == *old(table),
        (exists|i: int|
            0 <= i < MAX_BLOCKERS && (#[trigger] old(table).slots@[i]).in_use
                && old(table).slots@[i].blocking_pid == pid) ==> r,
        r ==> exists|i: int, b: &mut BlockerState|
            {
                &&& is_slot_for(old(table)@, pid, i)
                &&& if is_tracked(old(table)@, pid) {
                    *b == old(table).slots@[i]
                } else {
                    (*b)@ == BlockerModel::fresh(pid) && (*b).ring_is_blank()
                }
                &&& #[trigger] call_ensures(f, (b,), ())
                &&& final(table).slots@ == #[trigger] old(table).slots@.update(i, *final(b))
            },
{
    if let Some(i) = table.find_tracking(pid) {
        let slot = &mut table.slots[i];
        let ghost b = slot;
        f(slot);
        proof {
            assert(exists|r: &mut BlockerState| #[trigger]
                call_ensures(f, (r,), ()) && *r == *b && *final(r) == *final(b));
            assert(table.slots@ =~= old(table).slots@.update(i as int, *final(b)));
        }
        return true;
    }
    assert forall|i: int| 0 <= i < MAX_BLOCKERS implies !((#[trigger] table.slots@[i]).in_use
        && table.slots@[i].blocking_pid == pid) by {
        assert(!tracks(table@[i], pid));
    }
    let in_use: usize = table.count_in_use();
    if in_use >= settings.effective_max_tracked_blockers() {
        return false;
    }
    if let Some(i) = table.find_free() {
        let mut fresh = BlockerState::default();
        fresh.blocking_pid = pid;
        fresh.in_use = true;
        assert(fresh@ =~= BlockerModel::fresh(pid));
        table.slots[i] = fresh;
        let slot = &mut table.slots[i];
        let ghost b = slot;
        f(slot);
        proof {
            assert(exists|r: &mut BlockerState| #[trigger]
                call_ensures(f, (r,), ()) && *r == *b && *final(r) == *final(b));
            assert(table.slots@ =~= old(table).slots@.update(i as int, *final(b)));
        }
        return true;
    }
    proof {
        lemma_all_in_use(table@);
    }
    false
}

/// Where every slot is in use, the count is the size of the table.
pub(crate) proof fn lemma_all_in_use(slots: Seq<BlockerModel>)
    requires
        forall|j: int| 0 <= j < slots.len() ==> (#[trigger] slots[j]).in_use,
    ensures
        in_use_count(slots) == slots.len(),
    decreases slots.len(),
{
    reveal(Seq::filter);
    if slots.len() > 0 {
        assert(forall|j: int| 0 <= j < slots.len() - 1 ==> slots.drop_last()[j] == slots[j]);
        lemma_all_in_use(slots.drop_last());
    }
}

/// A consistent copy of the tracked blockers, in slot order.
pub fn snapshot(table: &BlockerTable) -> (r: Vec<BlockerState>)
    ensures
        r@ == table.slots@.filter(|slot: BlockerState| slot.in_use),
        table.wf() ==> forall|k: int| 0 <= k < r@.len() ==> (#[trigger] r@[k]).wf(),
{
    let mut r: Vec<BlockerState> = Vec::new();
    let ghost p = |slot: BlockerState| slot.in_use;
    for i in 0..MAX_BLOCKERS
        invariant
            p == |slot: BlockerState| slot.in_use,
            r@ == table.slots@.take(i as int).filter(p),
            table.wf() ==> forall|k: int| 0 <= k < r@.len() ==> (#[trigger] r@[k]).wf(),
    {
        proof {
            let s = table.slots@.take(i + 1);
            assert(s.drop_last() =~= table.slots@.take(i as int));
            assert(s.last() == table.slots@[i as int]);
            reveal(Seq::filter);
        }
        if table.slots[i].in_use {
            r.push(table.slots[i]);
        }
    }
    assert(table.slots@.take(MAX_BLOCKERS as int) =~= table.slots@);
    r
}

/// Whether the slot scores at or above the threshold.
pub open spec fn is_hot(slot: BlockerModel, threshold: Decimal, now: i64, weights: Weights) -> bool {
    score_value(slot, now, weights) >= threshold.value()
}

/// Whether the slot has just crossed the threshold: it is hot now, and no alert
/// has fired for the current episode.
pub open spec fn fires(slot: BlockerModel, threshold: Decimal, now: i64, weights: Weights) -> bool {
    slot.in_use && !slot.alerted && is_hot(slot, threshold, now, weights)
}

/// The slot after the threshold was checked: a tracked blocker is flagged as
/// alerted exactly while it is hot.
pub open spec fn checked(
    slot: BlockerModel,
    threshold: Decimal,
    now: i64,
    weights: Weights,
) -> BlockerModel {
    if slot.in_use {
        BlockerModel { alerted: is_hot(slot, threshold, now, weights), ..slot }
    } else {
        slot
    }
}

/// `alerts` reports exactly the slots that fire, in slot order, each as it stands
/// after the check and with its score.
pub open spec fn reports(
    alerts: Seq<(BlockerState, Fraction)>,
    slots: Seq<BlockerModel>,
    threshold: Decimal,
    now: i64,
    weights: Weights,
) -> bool {
    let fired = slots.filter(|slot: BlockerModel| fires(slot, threshold, now, weights));
    &&& alerts.len() == fired.len()
    &&& forall|k: int|
        0 <= k < alerts.len() ==> {
            &&& (#[trigger] alerts[k]).0.wf()
            &&& alerts[k].0@ == checked(fired[k], threshold, now, weights)
            &&& alerts[k].1.wf()
            &&& alerts[k].1.num@ <= alerts[k].1.den@
            &&& alerts[k].1.value() == score_value(fired[k], now, weights)
        }
}

/// Whether two slots differ in the alert flag at most.
pub open spec fn same_but_flag(a: BlockerState, b: BlockerState) -> bool {
    a == BlockerState { alerted: a.alerted, ..b }
}

/// Blockers that just crossed `threshold`, that is, were not
/// already flagged as alerted for the current episode. Flags them, so that an
/// ongoing incident does not fire again on every sample, and clears the flag of
/// whatever dropped back below the threshold, so that a later re-escalation
/// still fires.
pub fn take_alert_transitions(
    table: &mut BlockerTable,
    threshold: Decimal,
    now: i64,
    weights: &Weights,
) -> (r: Vec<(BlockerState, Fraction)>)
    requires
        old(table).wf(),
    ensures
        final(table).wf(),
        final(table)@ == old(table)@.map_values(
            |slot: BlockerModel| checked(slot, threshold, now, *weights),
        ),
        reports(r@, old(table)@, threshold, now, *weights),
        forall|i: int|
            0 <= i < MAX_BLOCKERS ==> same_but_flag(
                #[trigger] final(table).slots@[i],
                old(table).slots@[i],
            ),
        forall|k: int|
            0 <= k < r@.len() ==> final(table).slots@.contains((#[trigger] r@[k]).0),
        forall|i: int|
            0 <= i < MAX_BLOCKERS && old(table).slots@[i].in_use ==> (
            (#[trigger] final(table).slots@[i]).alerted <==> score_value(
                old(table).slots@[i]@,
                now,
                *weights,
            ) >= threshold.value()),
        forall|i: int|
            0 <= i < MAX_BLOCKERS && !old(table).slots@[i].in_use ==>
                #[trigger] final(table).slots@[i] == old(table).slots@[i],
{
    let mut newly_alerted: Vec<(BlockerState, Fraction)> = Vec::new();
    let ghost p = |slot: BlockerModel| fires(slot, threshold, now, *weights);
    assert(old(table)@.take(0).filter(p) =~= Seq::empty()) by {
        reveal(Seq::filter);
    }
    for i in 0..MAX_BLOCKERS
        invariant
            table.wf(),
            p == |slot: BlockerModel| fires(slot, threshold, now, *weights),
            forall|j: int|
                0 <= j < i ==> #[trigger] table@[j] == checked(
                    old(table)@[j],
                    threshold,
                    now,
                    *weights,
                ),
            forall|j: int| i <= j < MAX_BLOCKERS ==> #[trigger] table@[j] == old(table)@[j],
            reports(newly_alerted@, old(table)@.take(i as int), threshold, now, *weights),
            forall|j: int|
                0 <= j < MAX_BLOCKERS ==> same_but_flag(
                    #[trigger] table.slots@[j],
                    old(table).slots@[j],
                ),
            forall|k: int|
                0 <= k < newly_alerted@.len() ==> table.slots@.take(i as int).contains(
                    (#[trigger] newly_alerted@[k]).0,
                ),
    {
        proof {
            let s = old(table)@.take(i + 1);
            assert(s.drop_last() =~= old(table)@.take(i as int));
            assert(s.last() == old(table)@[i as int]);
            assert(table@[i as int] == old(table)@[i as int]);
            reveal(Seq::filter);
        }
        let ghost before = *table;
        let mut slot = table.slots[i];
        if slot.in_use {
            let score = slot.risk_score(now, weights);
            if score.at_least(&threshold) {
                if !slot.alerted {
                    slot.alerted = true;
                    table.slots[i] = slot;
                    assert(slot@ =~= checked(old(table)@[i as int], threshold, now, *weights));
                    newly_alerted.push((slot, score));
                }
            } else {
                slot.alerted = false;
                table.slots[i] = slot;
            }
        }
        assert(table@[i as int] =~= checked(old(table)@[i as int], threshold, now, *weights));
        assert(forall|j: int| 0 <= j < MAX_BLOCKERS && j != i ==> #[trigger] table@[j] == before@[j]);
        proof {
            let done = table.slots@.take(i + 1);
            assert(done =~= before.slots@.take(i as int).push(table.slots@[i as int]));
            assert forall|k: int| 0 <= k < newly_alerted@.len() implies done.contains(
                (#[trigger] newly_alerted@[k]).0,
            ) by {
                vstd::seq_lib::lemma_seq_contains_after_push(
                    before.slots@.take(i as int),
                    table.slots@[i as int],
                    newly_alerted@[k].0,
                );
            }
        }
    }
    assert(old(table)@.take(MAX_BLOCKERS as int) =~= old(table)@);
    assert(table.slots@.take(MAX_BLOCKERS as int) =~= table.slots@);
    assert forall|i: int|
        #![trigger table.slots@[i]]
        0 <= i < MAX_BLOCKERS implies table.slots@[i]@ == checked(
        old(table).slots@[i]@,
        threshold,
        now,
        *weights,
    ) by {
        assert(table@[i] == checked(old(table)@[i], threshold, now, *weights));
    }
    newly_alerted
}

/// The slot after eviction: freed where its pid no longer blocks anyone.
pub open spec fn evicted(slot: BlockerModel, still_blocking: Seq<i32>) -> BlockerModel {
    if slot.in_use && !still_blocking.contains(slot.blocking_pid) {
        BlockerModel::free()
    } else {
        slot
    }
}

/// Whether eviction leaves the slot as it was or, where its pid no longer blocks
/// anyone, without history.
pub open spec fn kept_or_blank(
    before: BlockerState,
    after: BlockerState,
    still_blocking: Seq<i32>,
) -> bool {
    if before.in_use && !still_blocking.contains(before.blocking_pid) {
        after@ == BlockerModel::free() && after.ring_is_blank()
    } else {
        after == before
    }
}

/// Clears the entries of pids that are no longer blocking anyone.
pub fn evict_stale(table: &mut BlockerTable, still_blocking_pids: &[i32])
    requires
        old(table).wf(),
    ensures
        final(table).wf(),
        final(table)@ == old(table)@.map_values(
            |slot: BlockerModel| evicted(slot, still_blocking_pids@),
        ),
        forall|i: int|
            0 <= i < MAX_BLOCKERS ==> kept_or_blank(
                old(table).slots@[i],
                #[trigger] final(table).slots@[i],
                still_blocking_pids@,
            ),
        forall|i: int|
            0 <= i < MAX_BLOCKERS && (!old(table).slots@[i].in_use || still_blocking_pids@.contains(
                old(table).slots@[i].blocking_pid,
            )) ==> #[trigger] final(table).slots@[i] == old(table).slots@[i],
        forall|i: int|
            0 <= i < MAX_BLOCKERS && old(table).slots@[i].in_use
                && !still_blocking_pids@.contains(old(table).slots@[i].blocking_pid) ==> !(
            #[trigger] final(table).slots@[i]).in_use,
{
    for i in 0..MAX_BLOCKERS
        invariant
            table.wf(),
            forall|j: int|
                0 <= j < i ==> #[trigger] table@[j] == evicted(
                    old(table)@[j],
                    still_blocking_pids@,
                ),
            forall|j: int| i <= j < MAX_BLOCKERS ==> #[trigger] table@[j] == old(table)@[j],
            forall|j: int|
                0 <= j < i ==> kept_or_blank(
                    old(table).slots@[j],
                    #[trigger] table.slots@[j],
                    still_blocking_pids@,
                ),
            forall|j: int|
                i <= j < MAX_BLOCKERS ==> #[trigger] table.slots@[j] == old(table).slots@[j],
    {
        let ghost before = *table;
        assert(table@[i as int] == old(table)@[i as int]);
        assert(table.slots@[i as int] == old(table).slots@[i as int]);
        if table.slots[i].in_use && !contains_pid(
            still_blocking_pids,
            table.slots[i].blocking_pid,
        ) {
            table.slots[i] = BlockerState::default();
        }
        assert(table@[i as int] == evicted(old(table)@[i as int], still_blocking_pids@));
        assert(forall|j: int| 0 <= j < MAX_BLOCKERS && j != i ==> #[trigger] table@[j] == before@[j]);
    }
}

/// Replacing one slot changes the count by that slot alone.
proof fn lemma_count_update(slots: Seq<BlockerModel>, i: int, slot: BlockerModel)
    requires
        0 <= i < slots.len(),
    ensures
        in_use_count(slots.update(i, slot)) == in_use_count(slots) - (if slots[i].in_use {
            1int
        } else {
            0
        }) + (if slot.in_use {
            1int
        } else {
            0
        }),
    decreases slots.len(),
{
    reveal(Seq::filter);
    let next = slots.update(i, slot);
    if i == slots.len() - 1 {
        assert(next.drop_last() =~= slots.drop_last());
    } else {
        assert(next.drop_last() =~= slots.drop_last().update(i, slot));
        lemma_count_update(slots.drop_last(), i, slot);
    }
}

/// Clearing flags can only lower the count.
pub(crate) proof fn lemma_count_shrinks(slots: Seq<BlockerModel>, next: Seq<BlockerModel>)
    requires
        slots.len() == next.len(),
        forall|i: int| 0 <= i < slots.len() && (#[trigger] next[i]).in_use ==> slots[i].in_use,
    ensures
        in_use_count(next) <= in_use_count(slots),
    decreases slots.len(),
{
    reveal(Seq::filter);
    if slots.len() > 0 {
        let (a, b) = (slots.drop_last(), next.drop_last());
        assert forall|i: int| 0 <= i < a.len() && (#[trigger] b[i]).in_use implies a[i].in_use by {
            assert(next[i].in_use);
        }
        lemma_count_shrinks(a, b);
        assert(next[slots.len() - 1].in_use ==> slots[slots.len() - 1].in_use);
    }
}

/// Updating the slot of a pid makes exactly that pid tracked, leaves every other
/// pid as it was, keeps each pid in one slot, and never brings the number of
/// tracked blockers above the cap (a table that is above it already is not
/// filled further).
pub proof fn law_upsert_tracks_the_pid(
    slots: Seq<BlockerModel>,
    pid: i32,
    cap: int,
    i: int,
    slot: BlockerModel,
)
    requires
        pids_unique(slots),
        is_tracked(slots, pid) || in_use_count(slots) < cap,
        is_slot_for(slots, pid, i),
        tracks(slot, pid),
    ensures
        pids_unique(slots.update(i, slot)),
        is_tracked(slots.update(i, slot), pid),
        forall|other: i32|
            other != pid ==> #[trigger] is_tracked(slots.update(i, slot), other) == is_tracked(
                slots,
                other,
            ),
        in_use_count(slots.update(i, slot)) == in_use_count(slots) + (if is_tracked(slots, pid) {
            0int
        } else {
            1
        }),
        in_use_count(slots) <= cap ==> in_use_count(slots.update(i, slot)) <= cap,
{
    let next = slots.update(i, slot);
    lemma_count_update(slots, i, slot);
    assert(tracks(next[i], pid));
    assert forall|other: i32| other != pid implies #[trigger] is_tracked(next, other)
        == is_tracked(slots, other) by {
        if is_tracked(slots, other) {
            let j = choose|j: int| 0 <= j < slots.len() && tracks(#[trigger] slots[j], other);
            assert(tracks(next[j], other));
        }
        if is_tracked(next, other) {
            let j = choose|j: int| 0 <= j < next.len() && tracks(#[trigger] next[j], other);
            assert(tracks(slots[j], other));
        }
    }
    assert forall|a: int, b: int|
        #![trigger next[a], next[b]]
        0 <= a < next.len() && 0 <= b < next.len() && next[a].in_use && next[b].in_use
            && next[a].blocking_pid == next[b].blocking_pid implies a == b by {
        if a != b && a == i {
            assert(tracks(slots[b], pid));
        }
        if a != b && b == i {
            assert(tracks(slots[a], pid));
        }
    }
}

/// Eviction leaves tracked exactly the pids that were tracked and still block,
/// each in one slot, and never takes a slot.
pub proof fn law_eviction_keeps_the_blocking(slots: Seq<BlockerModel>, still_blocking: Seq<i32>)
    ensures
        ({
            let next = slots.map_values(|slot: BlockerModel| evicted(slot, still_blocking));
            &&& forall|pid: i32| #[trigger]
                is_tracked(next, pid) == (is_tracked(slots, pid) && still_blocking.contains(pid))
            &&& pids_unique(slots) ==> pids_unique(next)
            &&& in_use_count(next) <= in_use_count(slots)
        }),
{
    let next = slots.map_values(|slot: BlockerModel| evicted(slot, still_blocking));
    assert forall|pid: i32| #[trigger]
        is_tracked(next, pid) == (is_tracked(slots, pid) && still_blocking.contains(pid)) by {
        if is_tracked(next, pid) {
            let j = choose|j: int| 0 <= j < next.len() && tracks(#[trigger] next[j], pid);
            assert(tracks(slots[j], pid));
        }
        if is_tracked(slots, pid) && still_blocking.contains(pid) {
            let j = choose|j: int| 0 <= j < slots.len() && tracks(#[trigger] slots[j], pid);
            assert(tracks(next[j], pid));
        }
    }
    if pids_unique(slots) {
        assert forall|a: int, b: int|
            #![trigger next[a], next[b]]
            0 <= a < next.len() && 0 <= b < next.len() && next[a].in_use && next[b].in_use
                && next[a].blocking_pid == next[b].blocking_pid implies a == b by {
            assert(slots[a].in_use && slots[b].in_use);
        }
    }
    assert forall|i: int| 0 <= i < slots.len() && (#[trigger] next[i]).in_use implies slots[i].in_use
        by {}
    lemma_count_shrinks(slots, next);
}

/// Checking the threshold changes nothing but the alert flags, and so neither
/// which pids are tracked nor where.
pub proof fn law_check_changes_only_the_flag(
    slot: BlockerModel,
    threshold: Decimal,
    now: i64,
    weights: Weights,
)
    ensures
        checked(slot, threshold, now, weights) == (BlockerModel {
            alerted: checked(slot, threshold, now, weights).alerted,
            ..slot
        }),
        forall|pid: i32| #[trigger]
            tracks(checked(slot, threshold, now, weights), pid) == tracks(slot, pid),
        forall|later: i64| #[trigger]
            score_value(checked(slot, threshold, now, weights), later, weights) == score_value(
                slot,
                later,
                weights,
            ),
{
}

/// Alerting is edge-triggered: once a check has been made, the same slot fires at
/// a later one only if it was below the threshold at the first and is at or above
/// it at the second. In particular a blocker that stays hot fires once, and one
/// that drops below and escalates again fires again.
pub proof fn law_alert_fires_once_per_crossing(
    slot: BlockerModel,
    threshold: Decimal,
    first: i64,
    second: i64,
    weights: Weights,
)
    ensures
        fires(checked(slot, threshold, first, weights), threshold, second, weights) == (
        slot.in_use && !is_hot(slot, threshold, first, weights) && is_hot(
            slot,
            threshold,
            second,
            weights,
        )),
{
    law_check_changes_only_the_flag(slot, threshold, first, weights);
}

/// A check goes by the score and the threshold alone. Afterwards a tracked blocker
/// is flagged if and only if its score is at least the threshold; it is reported if
/// and only if moreover it was not flagged before, with that score and as it then
/// stands, in the order of the slots. Nothing else changes.
pub proof fn law_check_follows_the_score(
    before: Seq<BlockerModel>,
    after: Seq<BlockerModel>,
    alerts: Seq<(BlockerState, Fraction)>,
    threshold: Decimal,
    now: i64,
    weights: Weights,
)
    requires
        after == before.map_values(|slot: BlockerModel| checked(slot, threshold, now, weights)),
        reports(alerts, before, threshold, now, weights),
    ensures
        after.len() == before.len(),
        forall|i: int|
            0 <= i < before.len() && before[i].in_use ==> ((#[trigger] after[i]).alerted <==> (
            score_value(before[i], now, weights) >= threshold.value())),
        forall|i: int|
            0 <= i < before.len() && !before[i].in_use ==> #[trigger] after[i] == before[i],
        forall|i: int|
            0 <= i < before.len() ==> #[trigger] after[i] == (BlockerModel {
                alerted: after[i].alerted,
                ..before[i]
            }),
        forall|i: int|
            #![trigger before[i]]
            0 <= i < before.len() && before[i].in_use && !before[i].alerted && score_value(
                before[i],
                now,
                weights,
            ) >= threshold.value() ==> exists|k: int|
                0 <= k < alerts.len() && (#[trigger] alerts[k]).0@ == after[i]
                    && alerts[k].1.value() == score_value(before[i], now, weights),
        forall|k: int|
            #![trigger alerts[k]]
            0 <= k < alerts.len() ==> alerts[k].1.den@ > 0 && exists|i: int|
                0 <= i < before.len() && (#[trigger] before[i]).in_use && !before[i].alerted && score_value(
                    before[i],
                    now,
                    weights,
                ) >= threshold.value() && alerts[k].0@ == after[i]
                    && alerts[k].1.value() == score_value(before[i], now, weights),
        ({
            let due = before.filter(
                |slot: BlockerModel|
                    slot.in_use && !slot.alerted && score_value(slot, now, weights)
                        >= threshold.value(),
            );
            &&& alerts.len() == due.len()
            &&& forall|k: int|
                0 <= k < alerts.len() ==> (#[trigger] alerts[k]).0.blocking_pid
                    == due[k].blocking_pid
        }),
{
    let p = |slot: BlockerModel| fires(slot, threshold, now, weights);
    let q = |slot: BlockerModel|
        slot.in_use && !slot.alerted && score_value(slot, now, weights) >= threshold.value();
    assert(p =~= q);
    let fired = before.filter(p);
    assert forall|i: int|
        #![trigger before[i]]
        0 <= i < before.len() && before[i].in_use && !before[i].alerted && score_value(
            before[i],
            now,
            weights,
        ) >= threshold.value() implies exists|k: int|
        0 <= k < alerts.len() && (#[trigger] alerts[k]).0@ == after[i]
            && alerts[k].1.value() == score_value(before[i], now, weights) by {
        assert(p(before[i]));
        before.lemma_filter_contains(p, i);
        let k = choose|k: int| 0 <= k < fired.len() && fired[k] == before[i];
        assert(alerts[k].0@ == after[i]);
    }
    assert forall|k: int|
        #![trigger alerts[k]]
        0 <= k < alerts.len() implies alerts[k].1.den@ > 0 && exists|i: int|
        0 <= i < before.len() && (#[trigger] before[i]).in_use && !before[i].alerted && score_value(
            before[i],
            now,
            weights,
        ) >= threshold.value() && alerts[k].0@ == after[i]
            && alerts[k].1.value() == score_value(before[i], now, weights) by {
        before.lemma_filter_pred(p, k);
        before.lemma_filter_contains_rev(p, fired[k]);
        let i = choose|i: int| 0 <= i < before.len() && before[i] == fired[k];
        assert(alerts[k].0@ == after[i]);
    }
    assert forall|k: int| 0 <= k < alerts.len() implies (#[trigger] alerts[k]).0.blocking_pid
        == fired[k].blocking_pid by {
        assert(alerts[k].0@ == checked(fired[k], threshold, now, weights));
    }
}

/// Eviction goes by the list of pids that still block: a slot in use for any other
/// pid becomes an empty slot, and every other slot stays exactly as it is.
pub proof fn law_eviction_goes_by_the_list(
    before: BlockerState,
    after: BlockerState,
    still_blocking: Seq<i32>,
    model: BlockerModel,
)
    requires
        kept_or_blank(before, after, still_blocking),
    ensures
        !before.in_use ==> after == before,
        (exists|k: int|
            0 <= k < still_blocking.len() && #[trigger] still_blocking[k] == before.blocking_pid)
            ==> after == before,
        before.in_use && (forall|k: int|
            0 <= k < still_blocking.len() ==> #[trigger] still_blocking[k]
                != before.blocking_pid) ==> {
            &&& !after.in_use && !after.alerted
            &&& after.blocking_pid == 0 && after.relation_oid == 0
            &&& after.lock_mode == crate::lock_mode::LockMode::AccessShare
            &&& after.lock_acquired_at is None && after.query_fingerprint == 0
            &&& after.baseline_hold_micros == 0 && after.cascade_depth == 0
            &&& after.history_head == 0 && after.history_len == 0
            &&& forall|c: int| 0 <= c < 16 ==> #[trigger] after.waiter_history@[c] == 0
        },
        !model.in_use ==> evicted(model, still_blocking) == model,
        (exists|k: int|
            0 <= k < still_blocking.len() && #[trigger] still_blocking[k] == model.blocking_pid)
            ==> evicted(model, still_blocking) == model,
        model.in_use && (forall|k: int|
            0 <= k < still_blocking.len() ==> #[trigger] still_blocking[k] != model.blocking_pid)
            ==> evicted(model, still_blocking) == BlockerModel::free(),
{
}

/// The slots in use are counted one by one.
pub proof fn law_slots_in_use_are_counted(slots: Seq<BlockerModel>, slot: BlockerModel)
    ensures
        in_use_count(Seq::empty()) == 0,
        in_use_count(slots.push(slot)) == in_use_count(slots) + (if slot.in_use {
            1nat
        } else {
            0nat
        }),
{
    reveal(Seq::filter);
    assert(slots.push(slot).drop_last() =~= slots);
}

/// A pid is given the first slot that is in use for it, and where there is none the
/// first slot that is not in use.
pub proof fn law_slot_of_a_pid(slots: Seq<BlockerModel>, pid: i32, i: int)
    ensures
        is_tracked(slots, pid) <==> exists|j: int|
            0 <= j < slots.len() && (#[trigger] slots[j]).in_use && slots[j].blocking_pid == pid,
        is_tracked(slots, pid) ==> (is_slot_for(slots, pid, i) <==> {
            &&& 0 <= i < slots.len() && slots[i].in_use && slots[i].blocking_pid == pid
            &&& forall|j: int|
                0 <= j < i ==> !((#[trigger] slots[j]).in_use && slots[j].blocking_pid == pid)
        }),
        !is_tracked(slots, pid) ==> (is_slot_for(slots, pid, i) <==> {
            &&& 0 <= i < slots.len() && !slots[i].in_use
            &&& forall|j: int| 0 <= j < i ==> (#[trigger] slots[j]).in_use
        }),
{
    if exists|j: int|
        0 <= j < slots.len() && (#[trigger] slots[j]).in_use && slots[j].blocking_pid == pid {
        let j = choose|j: int|
            0 <= j < slots.len() && (#[trigger] slots[j]).in_use && slots[j].blocking_pid == pid;
        assert(tracks(slots[j], pid));
    }
    assert(forall|j: int| #[trigger]
        tracks(slots[j], pid) <==> slots[j].in_use && slots[j].blocking_pid == pid);
}

/// The model of a table is the models of its 128 slots, in order, and the table is
/// well formed if and only if each of its slots is.
pub proof fn law_model_reads_the_table(table: BlockerTable, i: int)
    requires
        0 <= i < 128,
    ensures
        table@.len() == 128,
        table@[i] == table.slots@[i]@,
        table.wf() ==> table.slots@[i].history_head < 16 && table.slots@[i].history_len <= 16,
        (forall|j: int|
            0 <= j < 128 ==> (#[trigger] table.slots@[j]).history_head < 16
                && table.slots@[j].history_len <= 16) ==> table.wf(),
{
}

} // verus!
