//! The sampler: what one sample does to the tracking table, which alerts it
//! raises, and what the worker does next.

use crate::blocker::{BlockerModel, BlockerState};
use crate::fingerprint::fingerprint_query;
#[allow(unused_imports)]
use crate::blocker::ring_pushed;
#[allow(unused_imports)]
use crate::chain::is_root;
#[allow(unused_imports)]
use crate::fingerprint::{signed_bits, text_hash};
use crate::held::{most_severe_locks, BlockerMeta, HeldLockRow, MetaModel};
#[allow(unused_imports)]
use crate::held::{all_noted, held_of, law_noting_keeps_the_most_severe, meta_map};
use crate::ratio::Fraction;
use crate::scoring::MIN_BASELINE_MICROS;
#[allow(unused_imports)]
use crate::scoring::{duration_term, overrun_ratio};
use crate::settings::{Settings, MAX_BLOCKERS};
use crate::table::{evict_stale, take_alert_transitions, upsert_blocker, BlockerTable};
#[allow(unused_imports)]
use crate::table::{
    checked, evicted, first_free, first_tracking, in_use_count, is_hot, is_slot_for, is_tracked,
    kept_or_blank, pids_unique, reports, same_but_flag, tracks,
};
use crate::wait_graph::{RootBlocker, WaitGraph, WaitRow};
#[allow(unused_imports)]
use crate::wait_graph::{are_roots_of, graph_of};
#[allow(unused_imports)]
use crate::fingerprint::str_hash_writes;
#[allow(unused_imports)]
use crate::scoring::score_value;
#[allow(unused_imports)]
use std::collections::hash_map::DefaultHasher;
use std::collections::HashMap;
use vstd::prelude::*;
#[allow(unused_imports)]
use vstd::std_specs::hash::DefaultHasherAdditionalSpecFns;

verus! {

broadcast use vstd::std_specs::hash::group_hash_axioms;

/// The fingerprint stored for a query that may be unknown.
pub open spec fn stored_fingerprint(query: Option<Seq<char>>) -> i64 {
    match query {
        Some(text) => signed_bits(text_hash(text)) as i64,
        None => 0,
    }
}

/// The slot with the lock of its backend filled in. The start of the lock and the
/// hold-time baseline are taken over only while the start is not known yet.
pub open spec fn with_lock(slot: BlockerModel, meta: MetaModel, now: i64) -> BlockerModel {
    let described = BlockerModel {
        relation_oid: meta.relation_oid,
        lock_mode: meta.lock_mode,
        query_fingerprint: stored_fingerprint(meta.blocking_query),
        ..slot
    };
    if slot.lock_acquired_at is Some {
        described
    } else {
        let started = BlockerModel { lock_acquired_at: meta.held_since, ..described };
        BlockerModel {
            baseline_hold_micros: (if started.hold_micros(now) > MIN_BASELINE_MICROS {
                started.hold_micros(now)
            } else {
                MIN_BASELINE_MICROS as int
            }) as u64,
            ..started
        }
    }
}

/// The slot after a root blocker was seen in a sample.
pub open spec fn observed(
    slot: BlockerModel,
    root: RootBlocker,
    meta: Option<MetaModel>,
    now: i64,
    settings: Settings,
) -> BlockerModel {
    let described = match meta {
        Some(meta) => with_lock(slot, meta, now),
        None => slot,
    };
    BlockerModel {
        cascade_depth: root.cascade_depth,
        recent: crate::blocker::pushed(
            described.recent,
            root.waiter_count,
            settings.history_cap(),
        ),
        ..described
    }
}

/// Updates a slot with what a sample shows of its blocker.
fn observe(
    slot: &mut BlockerState,
    root: &RootBlocker,
    meta: Option<&BlockerMeta>,
    now: i64,
    settings: &Settings,
)
    requires
        old(slot).wf(),
    ensures
        final(slot).wf(),
        final(slot)@ == observed(
            old(slot)@,
            *root,
            match meta {
                Some(meta) => Some(meta@),
                None => None,
            },
            now,
            *settings,
        ),
        ring_pushed(*old(slot), *final(slot), root.waiter_count, settings.history_cap()),
{
    if let Some(m) = meta {
        slot.relation_oid = m.relation_oid;
        slot.lock_mode = m.lock_mode;
        slot.query_fingerprint = match &m.blocking_query {
            Some(query) => fingerprint_query(query.as_str()),
            None => 0,
        };
        if slot.lock_acquired_at.is_none() {
            slot.lock_acquired_at = m.held_since;
            // Seeded from the current hold time, so that a query that has been
            // running for long does not look like an outlier at first sight.
            let hold: i128 = slot.hold_seconds(now).num;
            slot.baseline_hold_micros = if hold > MIN_BASELINE_MICROS as i128 {
                hold as u64
            } else {
                MIN_BASELINE_MICROS
            };
        }
        assert(slot@ =~= with_lock(old(slot)@, m@, now));
    }
    slot.cascade_depth = root.cascade_depth;
    slot.push_waiter_count(root.waiter_count, settings);
}

/// Whether a sample may record `pid`: it is tracked already, or the table holds
/// fewer blockers than the settings allow.
pub open spec fn has_room(slots: Seq<BlockerModel>, pid: i32, settings: Settings) -> bool {
    is_tracked(slots, pid) || in_use_count(slots) < settings.tracked_cap()
}

/// The slot that `pid` is given.
pub open spec fn slot_for(slots: Seq<BlockerModel>, pid: i32) -> int {
    choose|i: int| is_slot_for(slots, pid, i)
}

/// The lock that stands for `pid`, if one is held.
pub open spec fn meta_of(held: Map<i32, MetaModel>, pid: i32) -> Option<MetaModel> {
    if held.contains_key(pid) {
        Some(held[pid])
    } else {
        None
    }
}

/// The table after one root blocker was recorded.
pub open spec fn recorded(
    slots: Seq<BlockerModel>,
    root: RootBlocker,
    held: Map<i32, MetaModel>,
    now: i64,
    settings: Settings,
) -> Seq<BlockerModel> {
    if has_room(slots, root.pid, settings) {
        let i = slot_for(slots, root.pid);
        let slot = if is_tracked(slots, root.pid) {
            slots[i]
        } else {
            BlockerModel::fresh(root.pid)
        };
        slots.update(i, observed(slot, root, meta_of(held, root.pid), now, settings))
    } else {
        slots
    }
}

/// What recording a root blocker does to the slots themselves: the count goes into
/// the ring buffer of one slot, which is blank where the slot was just taken, and
/// every other slot stays as it is.
pub open spec fn ring_recorded(
    before: BlockerTable,
    after: BlockerTable,
    root: RootBlocker,
    settings: Settings,
) -> bool {
    if has_room(before@, root.pid, settings) {
        exists|i: int, slot: BlockerState|
            {
                &&& is_slot_for(before@, root.pid, i)
                &&& if is_tracked(before@, root.pid) {
                    slot == before.slots@[i]
                } else {
                    slot.ring_is_blank()
                }
                &&& #[trigger] ring_pushed(
                    slot,
                    after.slots@[i],
                    root.waiter_count,
                    settings.history_cap(),
                )
                &&& after.slots@ == before.slots@.update(i, after.slots@[i])
            }
    } else {
        after == before
    }
}

/// Records a root blocker in the table. Returns false, and changes nothing, where
/// the table is full.
pub fn record_root(
    table: &mut BlockerTable,
    root: &RootBlocker,
    held: &HashMap<i32, BlockerMeta>,
    now: i64,
    settings: &Settings,
) -> (r: bool)
    requires
        old(table).wf(),
    ensures
        final(table).wf(),
        r == has_room(old(table)@, root.pid, *settings),
        final(table)@ == recorded(old(table)@, *root, meta_map(held@), now, *settings),
        ring_recorded(*old(table), *final(table), *root, *settings),
{
    let meta: Option<&BlockerMeta> = held.get(&root.pid);
    let ghost model = match meta {
        Some(meta) => Some(meta@),
        None => None,
    };
    let update = |slot: &mut BlockerState|
        requires
            old(slot).wf(),
        ensures
            final(slot).wf(),
            final(slot)@ == observed(old(slot)@, *root, model, now, *settings),
            ring_pushed(*old(slot), *final(slot), root.waiter_count, settings.history_cap()),
        {
            observe(slot, root, meta, now, settings);
        };
    let ghost f = update;
    let r: bool = upsert_blocker(table, root.pid, settings, update);
    proof {
        if r {
            let (i, b) = choose|i: int, b: &mut BlockerState|
                {
                    &&& is_slot_for(old(table)@, root.pid, i)
                    &&& if is_tracked(old(table)@, root.pid) {
                        *b == old(table).slots@[i]
                    } else {
                        (*b)@ == BlockerModel::fresh(root.pid) && (*b).ring_is_blank()
                    }
                    &&& #[trigger] call_ensures(f, (b,), ())
                    &&& table.slots@ == #[trigger] old(table).slots@.update(i, *final(b))
                };
            assert(ring_pushed(*b, table.slots@[i], root.waiter_count, settings.history_cap()));
        }
    }
    r
}

/// The table after all root blockers of a sample were recorded, in order.
pub open spec fn all_recorded(
    slots: Seq<BlockerModel>,
    roots: Seq<RootBlocker>,
    held: Map<i32, MetaModel>,
    now: i64,
    settings: Settings,
) -> Seq<BlockerModel>
    decreases roots.len(),
{
    if roots.len() == 0 {
        slots
    } else {
        recorded(
            all_recorded(slots, roots.drop_last(), held, now, settings),
            roots.last(),
            held,
            now,
            settings,
        )
    }
}

/// The pids that found no room when the root blockers were recorded, in order.
pub open spec fn dropped_pids(
    slots: Seq<BlockerModel>,
    roots: Seq<RootBlocker>,
    held: Map<i32, MetaModel>,
    now: i64,
    settings: Settings,
) -> Seq<i32>
    decreases roots.len(),
{
    if roots.len() == 0 {
        Seq::empty()
    } else {
        let earlier = dropped_pids(slots, roots.drop_last(), held, now, settings);
        let pid = roots.last().pid;
        if has_room(
            all_recorded(slots, roots.drop_last(), held, now, settings),
            pid,
            settings,
        ) {
            earlier
        } else {
            earlier.push(pid)
        }
    }
}

/// What recording the root blockers does to the slots themselves: each root blocker
/// is recorded in the table that the ones before it have left.
pub open spec fn rings_recorded(
    before: BlockerTable,
    after: BlockerTable,
    roots: Seq<RootBlocker>,
    held: Map<i32, MetaModel>,
    now: i64,
    settings: Settings,
) -> bool
    decreases roots.len(),
{
    if roots.len() == 0 {
        after == before
    } else {
        exists|mid: BlockerTable|
            {
                &&& rings_recorded(before, mid, roots.drop_last(), held, now, settings)
                &&& after@ == recorded(mid@, roots.last(), held, now, settings)
                &&& #[trigger] ring_recorded(mid, after, roots.last(), settings)
            }
    }
}

/// Records the root blockers of a sample. Returns the pids that were dropped
/// because the table was full.
pub fn record_roots(
    table: &mut BlockerTable,
    roots: &[RootBlocker],
    held: &HashMap<i32, BlockerMeta>,
    now: i64,
    settings: &Settings,
) -> (dropped: Vec<i32>)
    requires
        old(table).wf(),
    ensures
        final(table).wf(),
        final(table)@ == all_recorded(old(table)@, roots@, meta_map(held@), now, *settings),
        dropped@ == dropped_pids(old(table)@, roots@, meta_map(held@), now, *settings),
        rings_recorded(*old(table), *final(table), roots@, meta_map(held@), now, *settings),
{
    let mut dropped: Vec<i32> = Vec::new();
    let mut i: usize = 0;
    while i < roots.len()
        invariant
            i <= roots@.len(),
            table.wf(),
            table@ == all_recorded(
                old(table)@,
                roots@.take(i as int),
                meta_map(held@),
                now,
                *settings,
            ),
            dropped@ == dropped_pids(
                old(table)@,
                roots@.take(i as int),
                meta_map(held@),
                now,
                *settings,
            ),
            rings_recorded(
                *old(table),
                *table,
                roots@.take(i as int),
                meta_map(held@),
                now,
                *settings,
            ),
        decreases roots@.len() - i,
    {
        let ghost mid = *table;
        assert(roots@.take(i + 1).drop_last() =~= roots@.take(i as int));
        assert(roots@.take(i + 1).last() == roots@[i as int]);
        if !record_root(table, &roots[i], held, now, settings) {
            dropped.push(roots[i].pid);
        }
        assert(ring_recorded(mid, *table, roots@.take(i + 1).last(), *settings));
        i = i + 1;
    }
    assert(roots@.take(i as int) =~= roots@);
    dropped
}

/// The pids of the root blockers.
pub open spec fn pids_of(roots: Seq<RootBlocker>) -> Seq<i32> {
    roots.map_values(|root: RootBlocker| root.pid)
}

fn root_pids(roots: &[RootBlocker]) -> (r: Vec<i32>)
    ensures
        r@ == pids_of(roots@),
{
    let mut r: Vec<i32> = Vec::new();
    let mut i: usize = 0;
    while i < roots.len()
        invariant
            i <= roots@.len(),
            r@ == pids_of(roots@).take(i as int),
        decreases roots@.len() - i,
    {
        r.push(roots[i].pid);
        i = i + 1;
        assert(r@ =~= pids_of(roots@).take(i as int));
    }
    assert(pids_of(roots@).take(i as int) =~= pids_of(roots@));
    r
}

/// The alerts that are due: the blockers whose score has just crossed the
/// threshold of the settings.
pub fn check_thresholds(table: &mut BlockerTable, now: i64, settings: &Settings) -> (r: Vec<
    (BlockerState, Fraction),
>)
    requires
        old(table).wf(),
    ensures
        final(table).wf(),
        final(table)@ == all_checked(old(table)@, now, *settings),
        reports(r@, old(table)@, settings.risk_threshold, now, settings.weights),
        forall|i: int|
            0 <= i < MAX_BLOCKERS ==> same_but_flag(
                #[trigger] final(table).slots@[i],
                old(table).slots@[i],
            ),
        forall|k: int|
            0 <= k < r@.len() ==> final(table).slots@.contains((#[trigger] r@[k]).0),
        forall|i: int|
            0 <= i < MAX_BLOCKERS && old(table).slots@[i].in_use ==> (
            (#[trigger] final(table).slots@[i]).alerted <==> score_value(
                old(table).slots@[i]@,
                now,
                settings.weights,
            ) >= settings.risk_threshold.value()),
{
    take_alert_transitions(table, settings.risk_threshold, now, &settings.weights)
}

/// The table after eviction.
pub open spec fn all_evicted(slots: Seq<BlockerModel>, still_blocking: Seq<i32>) -> Seq<
    BlockerModel,
> {
    slots.map_values(|slot: BlockerModel| evicted(slot, still_blocking))
}

/// The table after the threshold was checked.
pub open spec fn all_checked(slots: Seq<BlockerModel>, now: i64, settings: Settings) -> Seq<
    BlockerModel,
> {
    slots.map_values(
        |slot: BlockerModel| checked(slot, settings.risk_threshold, now, settings.weights),
    )
}

/// What one sample leaves to be reported.
pub struct SampleReport {
    /// Root blockers that were not recorded because the table was full.
    pub dropped: Vec<i32>,
    /// Blockers that have just crossed the threshold, each with its score.
    pub alerts: Vec<(BlockerState, Fraction)>,
}

/// What the table holds and what is reported after a sample that found `roots`
/// and `held`.
pub open spec fn is_sampled(
    before: Seq<BlockerModel>,
    after: Seq<BlockerModel>,
    report: SampleReport,
    roots: Seq<RootBlocker>,
    held: Map<i32, MetaModel>,
    now: i64,
    settings: Settings,
) -> bool {
    let kept = all_evicted(all_recorded(before, roots, held, now, settings), pids_of(roots));
    &&& after == all_checked(kept, now, settings)
    &&& report.dropped@ == dropped_pids(before, roots, held, now, settings)
    &&& reports(report.alerts@, kept, settings.risk_threshold, now, settings.weights)
}

/// Whether eviction has left each slot as it was, or blank.
pub open spec fn slots_evicted(
    before: BlockerTable,
    after: BlockerTable,
    still_blocking: Seq<i32>,
) -> bool {
    forall|i: int|
        0 <= i < MAX_BLOCKERS ==> kept_or_blank(
            before.slots@[i],
            #[trigger] after.slots@[i],
            still_blocking,
        )
}

/// Whether the check of the threshold has changed flags alone.
pub open spec fn slots_checked(before: BlockerTable, after: BlockerTable) -> bool {
    forall|i: int|
        0 <= i < MAX_BLOCKERS ==> same_but_flag(#[trigger] after.slots@[i], before.slots@[i])
}

/// What a sample that found `roots` and `held` does to the slots themselves: it
/// records, evicts and checks, and reports slots as they then stand.
pub open spec fn slots_sampled(
    before: BlockerTable,
    after: BlockerTable,
    report: SampleReport,
    roots: Seq<RootBlocker>,
    held: Map<i32, MetaModel>,
    now: i64,
    settings: Settings,
) -> bool {
    &&& exists|recorded: BlockerTable, kept: BlockerTable|
        {
            &&& #[trigger] rings_recorded(before, recorded, roots, held, now, settings)
            &&& #[trigger] slots_evicted(recorded, kept, pids_of(roots))
            &&& slots_checked(kept, after)
        }
    &&& forall|k: int|
        0 <= k < report.alerts@.len() ==> after.slots@.contains((#[trigger] report.alerts@[k]).0)
}

/// Brings the table up to date with the root blockers of a sample: records them,
/// clears whatever no longer blocks anyone, and checks the threshold.
pub fn analyze(
    table: &mut BlockerTable,
    roots: &[RootBlocker],
    held: &HashMap<i32, BlockerMeta>,
    now: i64,
    settings: &Settings,
) -> (report: SampleReport)
    requires
        old(table).wf(),
    ensures
        final(table).wf(),
        is_sampled(
            old(table)@,
            final(table)@,
            report,
            roots@,
            meta_map(held@),
            now,
            *settings,
        ),
        slots_sampled(
            *old(table),
            *final(table),
            report,
            roots@,
            meta_map(held@),
            now,
            *settings,
        ),
{
    let dropped = record_roots(table, roots, held, now, settings);
    let ghost recorded = *table;
    let pids = root_pids(roots);
    evict_stale(table, pids.as_slice());
    let ghost kept = *table;
    let alerts = check_thresholds(table, now, settings);
    assert(rings_recorded(*old(table), recorded, roots@, meta_map(held@), now, *settings)
        && slots_evicted(recorded, kept, pids_of(roots@)));
    SampleReport { dropped, alerts }
}

/// What the table holds and what is reported after a sample over the given rows.
pub open spec fn is_sample_of(
    before: BlockerTable,
    after: BlockerTable,
    report: SampleReport,
    held_rows: Seq<HeldLockRow>,
    wait_rows: Seq<WaitRow>,
    now: i64,
    settings: Settings,
) -> bool {
    exists|graph: Map<i32, Seq<i32>>, roots: Seq<RootBlocker>, held: Map<i32, MetaModel>|
        {
            &&& graph_of(wait_rows, graph)
            &&& #[trigger] are_roots_of(graph, roots)
            &&& held_of(held_rows, held)
            &&& #[trigger] is_sampled(before@, after@, report, roots, held, now, settings)
            &&& slots_sampled(before, after, report, roots, held, now, settings)
        }
}

/// Taking the rows in one after the other, finding the root blockers, and bringing
/// the table up to date with them makes a sample: a caller that must not hold the
/// table while it reads the rows may do so and call `analyze` at the end.
pub proof fn law_parts_make_a_sample(
    before: BlockerTable,
    after: BlockerTable,
    report: SampleReport,
    held_rows: Seq<HeldLockRow>,
    wait_rows: Seq<WaitRow>,
    graph: Map<i32, Seq<i32>>,
    roots: Seq<RootBlocker>,
    now: i64,
    settings: Settings,
)
    requires
        graph_of(wait_rows, graph),
        are_roots_of(graph, roots),
        is_sampled(before@, after@, report, roots, all_noted(held_rows), now, settings),
        slots_sampled(before, after, report, roots, all_noted(held_rows), now, settings),
    ensures
        is_sample_of(before, after, report, held_rows, wait_rows, now, settings),
{
    law_noting_keeps_the_most_severe(held_rows);
}

/// One sample-and-score cycle over the rows of the held-locks query and of the
/// wait-graph query.
///
/// The order in which the root blockers are recorded is left open; it decides
/// which of them are dropped where the table runs full.
pub fn sample_and_analyze(
    table: &mut BlockerTable,
    held_rows: &[HeldLockRow],
    wait_rows: &[WaitRow],
    now: i64,
    settings: &Settings,
) -> (report: SampleReport)
    requires
        old(table).wf(),
        wait_rows@.len() < usize::MAX,
    ensures
        final(table).wf(),
        is_sample_of(
            *old(table),
            *final(table),
            report,
            held_rows@,
            wait_rows@,
            now,
            *settings,
        ),
{
    let held = most_severe_locks(held_rows);
    let graph = WaitGraph::from_rows(wait_rows);
    let roots = graph.root_blockers();
    let report = analyze(table, roots.as_slice(), &held, now, settings);
    assert(are_roots_of(graph@, roots@));
    report
}

/// What the worker does once it wakes up.
#[derive(Copy, Clone, Debug, PartialEq, Eq, Structural)]
pub enum WorkerAction {
    /// Leave the loop.
    Stop,
    /// Reload the configuration, then take a sample.
    ReloadAndSample,
    /// Take a sample.
    Sample,
}

/// Decides what follows a wait. The worker stops where the wait itself says so or
/// a termination was requested; a requested reload comes before the sample.
pub fn next_action(woke: bool, terminate: bool, reload: bool) -> (r: WorkerAction)
    ensures
        r == WorkerAction::Stop <==> !woke || terminate,
        r == WorkerAction::ReloadAndSample <==> woke && !terminate && reload,
        r == WorkerAction::Sample <==> woke && !terminate && !reload,
{
    if !woke || terminate {
        WorkerAction::Stop
    } else if reload {
        WorkerAction::ReloadAndSample
    } else {
        WorkerAction::Sample
    }
}

/// Where a sample may record `pid`, there is a slot for it.
proof fn lemma_slot_exists(slots: Seq<BlockerModel>, pid: i32, settings: Settings)
    requires
        slots.len() == MAX_BLOCKERS,
        has_room(slots, pid, settings),
    ensures
        is_slot_for(slots, pid, slot_for(slots, pid)),
{
    if is_tracked(slots, pid) {
        let i = choose|i: int| 0 <= i < slots.len() && tracks(#[trigger] slots[i], pid);
        lemma_first_tracking(slots, pid, i);
        let k = choose|k: int| first_tracking(slots, pid, k);
        assert(is_slot_for(slots, pid, k));
    } else {
        if forall|i: int| 0 <= i < slots.len() ==> (#[trigger] slots[i]).in_use {
            crate::table::lemma_all_in_use(slots);
        }
        let i = choose|i: int| 0 <= i < slots.len() && !(#[trigger] slots[i]).in_use;
        lemma_first_free(slots, i);
        let k = choose|k: int| first_free(slots, k);
        assert(is_slot_for(slots, pid, k));
    }
}

proof fn lemma_first_tracking(slots: Seq<BlockerModel>, pid: i32, i: int)
    requires
        0 <= i < slots.len(),
        tracks(slots[i], pid),
    ensures
        exists|k: int| first_tracking(slots, pid, k),
    decreases i,
{
    if exists|j: int| 0 <= j < i && tracks(#[trigger] slots[j], pid) {
        let j = choose|j: int| 0 <= j < i && tracks(#[trigger] slots[j], pid);
        lemma_first_tracking(slots, pid, j);
    } else {
        assert(first_tracking(slots, pid, i));
    }
}

proof fn lemma_first_free(slots: Seq<BlockerModel>, i: int)
    requires
        0 <= i < slots.len(),
        !slots[i].in_use,
    ensures
        exists|k: int| first_free(slots, k),
    decreases i,
{
    if exists|j: int| 0 <= j < i && !(#[trigger] slots[j]).in_use {
        let j = choose|j: int| 0 <= j < i && !(#[trigger] slots[j]).in_use;
        lemma_first_free(slots, j);
    } else {
        assert(first_free(slots, i));
    }
}

/// What recording the root blockers of a sample keeps.
proof fn lemma_all_recorded(
    slots: Seq<BlockerModel>,
    roots: Seq<RootBlocker>,
    held: Map<i32, MetaModel>,
    now: i64,
    settings: Settings,
)
    requires
        slots.len() == MAX_BLOCKERS,
        pids_unique(slots),
        pids_of(roots).no_duplicates(),
    ensures
        ({
            let next = all_recorded(slots, roots, held, now, settings);
            let dropped = dropped_pids(slots, roots, held, now, settings);
            &&& next.len() == MAX_BLOCKERS
            &&& pids_unique(next)
            &&& in_use_count(slots) <= settings.tracked_cap() ==> in_use_count(next)
                <= settings.tracked_cap()
            &&& forall|pid: i32| #[trigger]
                dropped.contains(pid) ==> pids_of(roots).contains(pid) && !is_tracked(slots, pid)
            &&& forall|pid: i32| #[trigger]
                is_tracked(next, pid) <==> is_tracked(slots, pid) || (pids_of(roots).contains(pid)
                    && !dropped.contains(pid))
        }),
    decreases roots.len(),
{
    let next = all_recorded(slots, roots, held, now, settings);
    let dropped = dropped_pids(slots, roots, held, now, settings);
    if roots.len() > 0 {
        let rest = roots.drop_last();
        let root = roots.last();
        assert(pids_of(roots) =~= pids_of(rest).push(root.pid));
        assert(pids_of(rest).no_duplicates()) by {
            assert(pids_of(rest) =~= pids_of(roots).drop_last());
        }
        assert(!pids_of(rest).contains(root.pid)) by {
            if pids_of(rest).contains(root.pid) {
                let k = choose|k: int| 0 <= k < rest.len() && pids_of(rest)[k] == root.pid;
                assert(pids_of(roots)[k] == pids_of(roots)[rest.len() as int]);
            }
        }
        lemma_all_recorded(slots, rest, held, now, settings);
        let mid = all_recorded(slots, rest, held, now, settings);
        let mid_dropped = dropped_pids(slots, rest, held, now, settings);
        assert forall|pid: i32| #[trigger]
            pids_of(roots).contains(pid) <==> pids_of(rest).contains(pid) || pid == root.pid by {
            vstd::seq_lib::lemma_seq_contains_after_push(pids_of(rest), root.pid, pid);
        }
        assert(!mid_dropped.contains(root.pid));
        assert forall|pid: i32| #[trigger]
            mid_dropped.push(root.pid).contains(pid) <==> mid_dropped.contains(pid) || pid
                == root.pid by {
            vstd::seq_lib::lemma_seq_contains_after_push(mid_dropped, root.pid, pid);
        }
        if has_room(mid, root.pid, settings) {
            lemma_slot_exists(mid, root.pid, settings);
            let i = slot_for(mid, root.pid);
            crate::table::law_upsert_tracks_the_pid(
                mid,
                root.pid,
                settings.tracked_cap(),
                i,
                next[i],
            );
            assert(next =~= mid.update(i, next[i]));
        }
    } else {
        assert(pids_of(roots) =~= Seq::empty());
    }
}

/// Checking the threshold keeps which pids are tracked, and where.
proof fn lemma_checked_keeps(slots: Seq<BlockerModel>, now: i64, settings: Settings)
    ensures
        ({
            let next = all_checked(slots, now, settings);
            &&& forall|pid: i32| #[trigger] is_tracked(next, pid) == is_tracked(slots, pid)
            &&& pids_unique(slots) ==> pids_unique(next)
            &&& in_use_count(next) <= in_use_count(slots)
        }),
{
    let next = all_checked(slots, now, settings);
    assert forall|pid: i32| #[trigger] is_tracked(next, pid) == is_tracked(slots, pid) by {
        if is_tracked(next, pid) {
            let j = choose|j: int| 0 <= j < next.len() && tracks(#[trigger] next[j], pid);
            assert(tracks(slots[j], pid));
        }
        if is_tracked(slots, pid) {
            let j = choose|j: int| 0 <= j < slots.len() && tracks(#[trigger] slots[j], pid);
            assert(tracks(next[j], pid));
        }
    }
    if pids_unique(slots) {
        assert forall|a: int, b: int|
            #![trigger next[a], next[b]]
            0 <= a < next.len() && 0 <= b < next.len() && next[a].in_use && next[b].in_use
                && next[a].blocking_pid == next[b].blocking_pid implies a == b by {
            assert(slots[a].in_use && slots[b].in_use);
        }
    }
    assert forall|i: int| 0 <= i < slots.len() && (#[trigger] next[i]).in_use implies slots[i].in_use
        by {}
    crate::table::lemma_count_shrinks(slots, next);
}

/// What the list of root blockers says of the pids.
proof fn lemma_root_pids(graph: Map<i32, Seq<i32>>, roots: Seq<RootBlocker>)
    requires
        are_roots_of(graph, roots),
    ensures
        pids_of(roots).no_duplicates(),
        forall|pid: i32| #[trigger] pids_of(roots).contains(pid) <==> is_root(graph, pid),
{
    let pids = pids_of(roots);
    assert forall|i: int, j: int|
        0 <= i < pids.len() && 0 <= j < pids.len() && i != j implies pids[i] != pids[j] by {
        if i < j {
            assert(roots[i].pid != roots[j].pid);
        } else {
            assert(roots[j].pid != roots[i].pid);
        }
    }
    assert forall|pid: i32| #[trigger] pids.contains(pid) <==> is_root(graph, pid) by {
        if pids.contains(pid) {
            let n = choose|n: int| 0 <= n < pids.len() && pids[n] == pid;
            assert(crate::wait_graph::describes_root(graph, roots[n]));
        }
        if is_root(graph, pid) {
            let n = choose|n: int| 0 <= n < roots.len() && (#[trigger] roots[n]).pid == pid;
            assert(pids[n] == pid);
        }
    }
}

/// After a sample the table tracks exactly the root blockers of that sample that
/// were not dropped, each in one slot, and no more blockers than the settings
/// allow unless it held more before. A blocker that was tracked already is never
/// dropped.
pub proof fn law_sample_tracks_the_roots(
    before: Seq<BlockerModel>,
    after: Seq<BlockerModel>,
    report: SampleReport,
    graph: Map<i32, Seq<i32>>,
    roots: Seq<RootBlocker>,
    held: Map<i32, MetaModel>,
    now: i64,
    settings: Settings,
)
    requires
        before.len() == MAX_BLOCKERS,
        pids_unique(before),
        are_roots_of(graph, roots),
        is_sampled(before, after, report, roots, held, now, settings),
    ensures
        forall|pid: i32| #[trigger]
            is_tracked(after, pid) <==> is_root(graph, pid) && !report.dropped@.contains(pid),
        forall|pid: i32| #[trigger]
            report.dropped@.contains(pid) ==> is_root(graph, pid) && !is_tracked(before, pid),
        pids_unique(after),
        in_use_count(before) <= settings.tracked_cap() ==> in_use_count(after)
            <= settings.tracked_cap(),
{
    lemma_root_pids(graph, roots);
    lemma_all_recorded(before, roots, held, now, settings);
    let recorded = all_recorded(before, roots, held, now, settings);
    let kept = all_evicted(recorded, pids_of(roots));
    crate::table::law_eviction_keeps_the_blocking(recorded, pids_of(roots));
    lemma_checked_keeps(kept, now, settings);
    assert forall|pid: i32| #[trigger]
        is_tracked(after, pid) <==> is_root(graph, pid) && !report.dropped@.contains(pid) by {
        assert(is_tracked(after, pid) == is_tracked(kept, pid));
        assert(pids_of(roots).contains(pid) <==> is_root(graph, pid));
    }
    assert forall|pid: i32| #[trigger] report.dropped@.contains(pid) implies is_root(graph, pid)
        && !is_tracked(before, pid) by {
        assert(pids_of(roots).contains(pid) <==> is_root(graph, pid));
    }
}

/// Every alert of a sample is about a root blocker of that sample, at or above
/// the threshold.
pub proof fn law_alerts_name_root_blockers(
    before: Seq<BlockerModel>,
    after: Seq<BlockerModel>,
    report: SampleReport,
    graph: Map<i32, Seq<i32>>,
    roots: Seq<RootBlocker>,
    held: Map<i32, MetaModel>,
    now: i64,
    settings: Settings,
    k: int,
)
    requires
        are_roots_of(graph, roots),
        is_sampled(before, after, report, roots, held, now, settings),
        0 <= k < report.alerts@.len(),
    ensures
        is_root(graph, report.alerts@[k].0.blocking_pid),
        report.alerts@[k].0.alerted,
        report.alerts@[k].1.value() >= settings.risk_threshold.value(),
{
    lemma_root_pids(graph, roots);
    let recorded = all_recorded(before, roots, held, now, settings);
    let kept = all_evicted(recorded, pids_of(roots));
    let p = |slot: BlockerModel|
        crate::table::fires(slot, settings.risk_threshold, now, settings.weights);
    let fired = kept.filter(p);
    assert(report.alerts@[k].0@ == checked(
        fired[k],
        settings.risk_threshold,
        now,
        settings.weights,
    ));
    kept.lemma_filter_pred(p, k);
    kept.lemma_filter_contains_rev(p, fired[k]);
    let j = choose|j: int| 0 <= j < kept.len() && kept[j] == fired[k];
    assert(kept[j] == evicted(recorded[j], pids_of(roots)));
    assert(pids_of(roots).contains(fired[k].blocking_pid));
}

/// Whether `pid` is tracked and flagged as alerted.
pub open spec fn is_flagged(slots: Seq<BlockerModel>, pid: i32) -> bool {
    exists|i: int| 0 <= i < slots.len() && flagged_at(slots, pid, i)
}

/// Slot `i` tracks `pid` and is flagged as alerted.
pub open spec fn flagged_at(slots: Seq<BlockerModel>, pid: i32, i: int) -> bool {
    tracks(slots[i], pid) && slots[i].alerted
}

/// Whether `pid` is tracked and scores at or above the threshold.
pub open spec fn is_hot_blocker(
    slots: Seq<BlockerModel>,
    pid: i32,
    now: i64,
    settings: Settings,
) -> bool {
    exists|i: int| 0 <= i < slots.len() && hot_at(slots, pid, now, settings, i)
}

/// Slot `i` tracks `pid` and scores at or above the threshold.
pub open spec fn hot_at(
    slots: Seq<BlockerModel>,
    pid: i32,
    now: i64,
    settings: Settings,
    i: int,
) -> bool {
    tracks(slots[i], pid) && is_hot(slots[i], settings.risk_threshold, now, settings.weights)
}

/// Whether an alert is raised for `pid`.
pub open spec fn is_reported(report: SampleReport, pid: i32) -> bool {
    exists|k: int|
        0 <= k < report.alerts@.len() && (#[trigger] report.alerts@[k]).0.blocking_pid == pid
}

/// Recording leaves the flags as they are; a slot just taken is not flagged.
proof fn lemma_recording_keeps_flags(
    slots: Seq<BlockerModel>,
    roots: Seq<RootBlocker>,
    held: Map<i32, MetaModel>,
    now: i64,
    settings: Settings,
)
    requires
        slots.len() == MAX_BLOCKERS,
    ensures
        all_recorded(slots, roots, held, now, settings).len() == MAX_BLOCKERS,
        forall|pid: i32| #[trigger]
            is_flagged(all_recorded(slots, roots, held, now, settings), pid) == is_flagged(
                slots,
                pid,
            ),
    decreases roots.len(),
{
    if roots.len() > 0 {
        let rest = roots.drop_last();
        let root = roots.last();
        lemma_recording_keeps_flags(slots, rest, held, now, settings);
        let mid = all_recorded(slots, rest, held, now, settings);
        let next = all_recorded(slots, roots, held, now, settings);
        if has_room(mid, root.pid, settings) {
            lemma_slot_exists(mid, root.pid, settings);
            let i = slot_for(mid, root.pid);
            assert(next =~= mid.update(i, next[i]));
            assert forall|pid: i32| #[trigger] is_flagged(next, pid) == is_flagged(slots, pid) by {
                assert(is_flagged(mid, pid) == is_flagged(slots, pid));
                if is_flagged(next, pid) {
                    let j = choose|j: int| 0 <= j < next.len() && flagged_at(next, pid, j);
                    assert(flagged_at(mid, pid, j));
                }
                if is_flagged(mid, pid) {
                    let j = choose|j: int| 0 <= j < mid.len() && flagged_at(mid, pid, j);
                    assert(flagged_at(next, pid, j));
                }
            }
        }
    }
}

/// Alerting is edge-triggered from sample to sample: a sample raises an alert for
/// exactly the blockers that it leaves at or above the threshold and that were
/// not flagged before it, and afterwards exactly the blockers at or above the
/// threshold are flagged. So a blocker that stays hot is reported once, and one
/// that was below the threshold in between is reported again.
pub proof fn law_sample_alerts_once_per_episode(
    before: Seq<BlockerModel>,
    after: Seq<BlockerModel>,
    report: SampleReport,
    graph: Map<i32, Seq<i32>>,
    roots: Seq<RootBlocker>,
    held: Map<i32, MetaModel>,
    now: i64,
    settings: Settings,
)
    requires
        before.len() == MAX_BLOCKERS,
        pids_unique(before),
        are_roots_of(graph, roots),
        is_sampled(before, after, report, roots, held, now, settings),
    ensures
        forall|pid: i32| #[trigger]
            is_reported(report, pid) <==> is_hot_blocker(after, pid, now, settings) && !is_flagged(
                before,
                pid,
            ),
        forall|pid: i32| #[trigger]
            is_flagged(after, pid) <==> is_hot_blocker(after, pid, now, settings),
{
    lemma_root_pids(graph, roots);
    lemma_all_recorded(before, roots, held, now, settings);
    lemma_recording_keeps_flags(before, roots, held, now, settings);
    let recorded = all_recorded(before, roots, held, now, settings);
    let pids = pids_of(roots);
    let kept = all_evicted(recorded, pids);
    crate::table::law_eviction_keeps_the_blocking(recorded, pids);
    let p = |slot: BlockerModel|
        crate::table::fires(slot, settings.risk_threshold, now, settings.weights);
    let fired = kept.filter(p);
    assert forall|pid: i32| #[trigger] is_reported(report, pid) implies is_hot_blocker(
        after,
        pid,
        now,
        settings,
    ) && !is_flagged(before, pid) by {
        let k = choose|k: int|
            0 <= k < report.alerts@.len() && (#[trigger] report.alerts@[k]).0.blocking_pid == pid;
        assert(report.alerts@[k].0@ == checked(
            fired[k],
            settings.risk_threshold,
            now,
            settings.weights,
        ));
        kept.lemma_filter_pred(p, k);
        kept.lemma_filter_contains_rev(p, fired[k]);
        let j = choose|j: int| 0 <= j < kept.len() && kept[j] == fired[k];
        assert(hot_at(after, pid, now, settings, j));
        if is_flagged(before, pid) {
            assert(is_flagged(recorded, pid));
            let i = choose|i: int| 0 <= i < recorded.len() && flagged_at(recorded, pid, i);
            assert(kept[j] == evicted(recorded[j], pids));
            assert(kept[i] == evicted(recorded[i], pids));
            assert(kept[i].in_use && kept[j].in_use);
        }
    }
    assert forall|pid: i32|
        is_hot_blocker(after, pid, now, settings) && !is_flagged(before, pid) implies #[trigger]
        is_reported(report, pid) by {
        let j = choose|j: int| 0 <= j < after.len() && hot_at(after, pid, now, settings, j);
        assert(kept[j] == evicted(recorded[j], pids));
        assert(!is_flagged(recorded, pid));
        assert(!flagged_at(recorded, pid, j));
        assert(p(kept[j]));
        kept.lemma_filter_contains(p, j);
        let k = choose|k: int| 0 <= k < fired.len() && fired[k] == kept[j];
        assert(report.alerts@[k].0.blocking_pid == pid);
    }
    assert forall|pid: i32| #[trigger] is_flagged(after, pid) <==> is_hot_blocker(
        after,
        pid,
        now,
        settings,
    ) by {
        if is_flagged(after, pid) {
            let j = choose|j: int| 0 <= j < after.len() && flagged_at(after, pid, j);
            assert(hot_at(after, pid, now, settings, j));
        }
        if is_hot_blocker(after, pid, now, settings) {
            let j = choose|j: int| 0 <= j < after.len() && hot_at(after, pid, now, settings, j);
            assert(flagged_at(after, pid, j));
        }
    }
}

/// What recording one root blocker does to each slot: only the slot of its pid
/// changes, and that slot shows what was seen.
proof fn lemma_recorded_slot(
    slots: Seq<BlockerModel>,
    root: RootBlocker,
    held: Map<i32, MetaModel>,
    now: i64,
    settings: Settings,
)
    requires
        slots.len() == MAX_BLOCKERS,
        pids_unique(slots),
    ensures
        ({
            let next = recorded(slots, root, held, now, settings);
            &&& next.len() == slots.len()
            &&& forall|i: int|
                0 <= i < slots.len() && (#[trigger] slots[i]).in_use && slots[i].blocking_pid
                    != root.pid ==> next[i] == slots[i]
            &&& forall|i: int|
                0 <= i < slots.len() && tracks(#[trigger] slots[i], root.pid) ==> next[i] == seen(
                    slots[i],
                    root,
                    held,
                    now,
                    settings,
                )
            &&& forall|i: int|
                0 <= i < slots.len() && (#[trigger] next[i]).in_use ==> {
                    ||| next[i] == slots[i] && slots[i].blocking_pid != root.pid
                    ||| next[i] == seen(slot_before(slots[i], root.pid), root, held, now, settings)
                        && (tracks(slots[i], root.pid) || !is_tracked(slots, root.pid))
                        && next[i].blocking_pid == root.pid
                }
        }),
{
    reveal(seen);
    let next = recorded(slots, root, held, now, settings);
    let at = slot_for(slots, root.pid);
    if has_room(slots, root.pid, settings) {
        lemma_slot_exists(slots, root.pid, settings);
    }
    assert forall|i: int| 0 <= i < slots.len() && tracks(#[trigger] slots[i], root.pid) implies i
        == at && is_tracked(slots, root.pid) by {
        assert(is_tracked(slots, root.pid));
        assert(tracks(slots[at], root.pid));
    }
}

/// What was seen is still of the same pid.
proof fn lemma_seen_keeps_the_pid(
    slot: BlockerModel,
    root: RootBlocker,
    held: Map<i32, MetaModel>,
    now: i64,
    settings: Settings,
)
    ensures
        seen(slot, root, held, now, settings).blocking_pid == slot.blocking_pid,
        seen(slot, root, held, now, settings).in_use == slot.in_use,
{
    reveal(seen);
}

/// What recording does to each slot, where no pid is recorded twice: a slot whose
/// pid is recorded shows what was seen of it, and a slot in use whose pid is not
/// recorded stays as it is.
proof fn lemma_recorded_slots(
    slots: Seq<BlockerModel>,
    roots: Seq<RootBlocker>,
    held: Map<i32, MetaModel>,
    now: i64,
    settings: Settings,
)
    requires
        slots.len() == MAX_BLOCKERS,
        pids_unique(slots),
        pids_of(roots).no_duplicates(),
    ensures
        forall|i: int, n: int|
            0 <= i < slots.len() && 0 <= n < roots.len() ==> #[trigger] shows_what_was_seen(
                slots,
                roots,
                held,
                now,
                settings,
                i,
                n,
            ),
        ({
            let next = all_recorded(slots, roots, held, now, settings);
            &&& forall|i: int|
                0 <= i < slots.len() && (#[trigger] slots[i]).in_use && !pids_of(roots).contains(
                    slots[i].blocking_pid,
                ) ==> next[i] == slots[i]
        }),
    decreases roots.len(),
{
    if roots.len() > 0 {
        let next = all_recorded(slots, roots, held, now, settings);
        let rest = roots.drop_last();
        let root = roots.last();
        let mid = all_recorded(slots, rest, held, now, settings);
        assert(pids_of(roots) =~= pids_of(rest).push(root.pid));
        assert(pids_of(rest) =~= pids_of(roots).drop_last());
        assert forall|pid: i32| #[trigger]
            pids_of(roots).contains(pid) <==> pids_of(rest).contains(pid) || pid == root.pid by {
            vstd::seq_lib::lemma_seq_contains_after_push(pids_of(rest), root.pid, pid);
        }
        assert(!pids_of(rest).contains(root.pid)) by {
            if pids_of(rest).contains(root.pid) {
                let k = choose|k: int| 0 <= k < rest.len() && pids_of(rest)[k] == root.pid;
                assert(pids_of(roots)[k] == pids_of(roots)[rest.len() as int]);
            }
        }
        lemma_recorded_slots(slots, rest, held, now, settings);
        lemma_all_recorded(slots, rest, held, now, settings);
        lemma_recorded_slot(mid, root, held, now, settings);
        assert forall|i: int, n: int| 0 <= i < slots.len() && 0 <= n < roots.len() implies
            #[trigger] shows_what_was_seen(slots, roots, held, now, settings, i, n) by {
            let pid = roots[n].pid;
            let slot = slot_before(slots[i], pid);
            lemma_seen_keeps_the_pid(slot, roots[n], held, now, settings);
            if n < rest.len() {
                assert(rest[n] == roots[n]);
                assert(pids_of(rest)[n] == pid);
                assert(pid != root.pid);
                assert(shows_what_was_seen(slots, rest, held, now, settings, i, n));
                if tracks(next[i], pid) {
                    assert(next[i] == mid[i]);
                }
                if tracks(slots[i], pid) {
                    assert(mid[i].in_use && mid[i].blocking_pid != root.pid);
                }
            } else {
                if tracks(slots[i], pid) {
                    assert(mid[i] == slots[i]);
                }
                if tracks(next[i], pid) && !tracks(slots[i], pid) {
                    if tracks(mid[i], pid) {
                        assert(is_tracked(mid, pid));
                        assert(is_tracked(slots, pid));
                        let j = choose|j: int|
                            0 <= j < slots.len() && tracks(#[trigger] slots[j], pid);
                        assert(mid[j] == slots[j]);
                        assert(i == j);
                    }
                }
            }
        }
    } else {
        assert(pids_of(roots) =~= Seq::empty());
    }
}

/// Slot `i` shows what was seen of root blocker `n`, if it tracks it before or after
/// the recording.
spec fn shows_what_was_seen(
    slots: Seq<BlockerModel>,
    roots: Seq<RootBlocker>,
    held: Map<i32, MetaModel>,
    now: i64,
    settings: Settings,
    i: int,
    n: int,
) -> bool {
    let next = all_recorded(slots, roots, held, now, settings);
    tracks(slots[i], roots[n].pid) || tracks(next[i], roots[n].pid) ==> next[i] == seen(
        slot_before(slots[i], roots[n].pid),
        roots[n],
        held,
        now,
        settings,
    )
}

/// What the slot that comes to track `pid` holds before: what it holds of `pid`, or
/// nothing yet.
spec fn slot_before(slot: BlockerModel, pid: i32) -> BlockerModel {
    if tracks(slot, pid) {
        slot
    } else {
        BlockerModel::fresh(pid)
    }
}

/// The slot after a root blocker was seen with the lock that stands for it.
#[verifier::opaque]
pub open spec fn seen(
    slot: BlockerModel,
    root: RootBlocker,
    held: Map<i32, MetaModel>,
    now: i64,
    settings: Settings,
) -> BlockerModel {
    observed(slot, root, meta_of(held, root.pid), now, settings)
}

/// After a sample every tracked blocker shows the number of waiters and the
/// cascade depth that its root blocker has in that sample.
pub proof fn law_sample_shows_the_latest(
    before: Seq<BlockerModel>,
    after: Seq<BlockerModel>,
    report: SampleReport,
    graph: Map<i32, Seq<i32>>,
    roots: Seq<RootBlocker>,
    held: Map<i32, MetaModel>,
    now: i64,
    settings: Settings,
)
    requires
        before.len() == MAX_BLOCKERS,
        pids_unique(before),
        are_roots_of(graph, roots),
        is_sampled(before, after, report, roots, held, now, settings),
    ensures
        forall|i: int|
            0 <= i < after.len() && (#[trigger] after[i]).in_use ==> exists|n: int|
                {
                    &&& 0 <= n < roots.len()
                    &&& (#[trigger] roots[n]).pid == after[i].blocking_pid
                    &&& roots[n].waiter_count == after[i].current_waiter_count()
                    &&& roots[n].cascade_depth == after[i].cascade_depth
                },
{
    lemma_root_pids(graph, roots);
    lemma_all_recorded(before, roots, held, now, settings);
    lemma_recorded_slots(before, roots, held, now, settings);
    let recorded = all_recorded(before, roots, held, now, settings);
    let kept = all_evicted(recorded, pids_of(roots));
    assert forall|i: int| 0 <= i < after.len() && (#[trigger] after[i]).in_use implies exists|n: int|
        {
            &&& 0 <= n < roots.len()
            &&& (#[trigger] roots[n]).pid == after[i].blocking_pid
            &&& roots[n].waiter_count == after[i].current_waiter_count()
            &&& roots[n].cascade_depth == after[i].cascade_depth
        } by {
        assert(kept[i] == evicted(recorded[i], pids_of(roots)));
        assert(kept[i] == recorded[i]);
        let n = choose|n: int| 0 <= n < roots.len() && pids_of(roots)[n] == recorded[i].blocking_pid;
        assert(shows_what_was_seen(before, roots, held, now, settings, i, n));
        reveal(seen);
        assert(roots[n].pid == after[i].blocking_pid);
    }
}

/// A tracked blocker that a later sample finds to be a root blocker again stays in
/// its slot and gains that sample's number of waiters as one more count; where the
/// start of its lock was known, both the start and the baseline are kept.
pub proof fn law_sample_continues_the_history(
    before: Seq<BlockerModel>,
    after: Seq<BlockerModel>,
    report: SampleReport,
    graph: Map<i32, Seq<i32>>,
    roots: Seq<RootBlocker>,
    held: Map<i32, MetaModel>,
    now: i64,
    settings: Settings,
    i: int,
    n: int,
)
    requires
        before.len() == MAX_BLOCKERS,
        pids_unique(before),
        are_roots_of(graph, roots),
        is_sampled(before, after, report, roots, held, now, settings),
        0 <= i < before.len(),
        0 <= n < roots.len(),
        tracks(before[i], roots[n].pid),
    ensures
        tracks(after[i], roots[n].pid),
        after[i].recent == crate::blocker::pushed(
            before[i].recent,
            roots[n].waiter_count,
            settings.history_cap(),
        ),
        before[i].lock_acquired_at is Some ==> after[i].lock_acquired_at
            == before[i].lock_acquired_at && after[i].baseline_hold_micros
            == before[i].baseline_hold_micros,
{
    lemma_root_pids(graph, roots);
    lemma_all_recorded(before, roots, held, now, settings);
    lemma_recorded_slots(before, roots, held, now, settings);
    let recorded = all_recorded(before, roots, held, now, settings);
    let kept = all_evicted(recorded, pids_of(roots));
    assert(shows_what_was_seen(before, roots, held, now, settings, i, n));
    reveal(seen);
    assert(pids_of(roots)[n] == roots[n].pid);
    assert(kept[i] == evicted(recorded[i], pids_of(roots)));
}

/// The baseline of a slot is seeded once: where the start of the lock is known, an
/// observation keeps both the start and the baseline.
pub proof fn law_baseline_is_seeded_once(
    slot: BlockerModel,
    root: RootBlocker,
    meta: Option<MetaModel>,
    now: i64,
    settings: Settings,
)
    requires
        slot.lock_acquired_at is Some,
    ensures
        observed(slot, root, meta, now, settings).lock_acquired_at == slot.lock_acquired_at,
        observed(slot, root, meta, now, settings).baseline_hold_micros
            == slot.baseline_hold_micros,
{
}

/// A query that has been running for long does not look like an outlier at first
/// sight: at the sample that seeds the baseline the hold time does not exceed it.
pub proof fn law_first_sight_is_no_overrun(
    slot: BlockerModel,
    root: RootBlocker,
    meta: MetaModel,
    now: i64,
    settings: Settings,
)
    requires
        slot.lock_acquired_at is None,
    ensures
        overrun_ratio(observed(slot, root, Some(meta), now, settings), now) <= 0real,
        duration_term(observed(slot, root, Some(meta), now, settings), now) == 0real,
{
    let seen = observed(slot, root, Some(meta), now, settings);
    crate::scoring::lemma_overrun(seen, now);
    let baseline = seen.baseline_hold_micros as int;
    assert(baseline >= MIN_BASELINE_MICROS);
    assert(seen.hold_micros(now) <= baseline);
    let over = (seen.hold_micros(now) - baseline) as real;
    crate::fraction::lemma_order(0real, over, baseline as real);
    crate::fraction::lemma_quotient(0real, baseline as real, 0real);
    crate::scoring::law_normalized_range(overrun_ratio(seen, now), 1real);
}

/// What one observation does to a slot, field by field. The lock of the backend is
/// taken over as it now is, whatever the slot held before; where no lock is known,
/// what the slot holds of it stays. The start of the lock and the baseline are set
/// once. The count and the depth are those of the root blocker.
pub proof fn law_observation_takes_over_the_lock(
    slot: BlockerModel,
    root: RootBlocker,
    meta: Option<MetaModel>,
    now: i64,
    settings: Settings,
)
    ensures
        ({
            let next = observed(slot, root, meta, now, settings);
            &&& next.blocking_pid == slot.blocking_pid
            &&& next.in_use == slot.in_use
            &&& next.alerted == slot.alerted
            &&& next.cascade_depth == root.cascade_depth
            &&& next.recent[next.recent.len() - 1] == root.waiter_count
            &&& slot.recent.len() < settings.history_cap() ==> next.recent == slot.recent.push(
                root.waiter_count,
            )
            &&& slot.recent.len() >= settings.history_cap() ==> next.recent
                == slot.recent.subrange(1, slot.recent.len() as int).push(root.waiter_count)
            &&& meta is None ==> {
                &&& next.relation_oid == slot.relation_oid
                &&& next.lock_mode == slot.lock_mode
                &&& next.query_fingerprint == slot.query_fingerprint
                &&& next.lock_acquired_at == slot.lock_acquired_at
                &&& next.baseline_hold_micros == slot.baseline_hold_micros
            }
            &&& meta matches Some(lock) ==> {
                &&& next.relation_oid == lock.relation_oid
                &&& next.lock_mode == lock.lock_mode
                &&& lock.blocking_query is None ==> next.query_fingerprint == 0
                &&& lock.blocking_query matches Some(text) ==> (next.query_fingerprint
                    == DefaultHasher::spec_finish(str_hash_writes(text)) || next.query_fingerprint
                    == DefaultHasher::spec_finish(str_hash_writes(text))
                    - 0x1_0000_0000_0000_0000)
                &&& slot.lock_acquired_at is Some ==> next.lock_acquired_at
                    == slot.lock_acquired_at && next.baseline_hold_micros
                    == slot.baseline_hold_micros
                &&& slot.lock_acquired_at is None ==> next.lock_acquired_at == lock.held_since
                &&& slot.lock_acquired_at is None ==> (lock.held_since matches Some(since) ==> (now
                    - since > 100_000 ==> next.baseline_hold_micros == now - since) && (now - since
                    <= 100_000 ==> next.baseline_hold_micros == 100_000))
                &&& slot.lock_acquired_at is None && lock.held_since is None
                    ==> next.baseline_hold_micros == 100_000
            }
        }),
{
    let next = observed(slot, root, meta, now, settings);
    crate::settings::law_caps_follow_the_request(settings, settings);
    if slot.recent.len() >= settings.history_cap() {
        assert(next.recent =~= slot.recent.subrange(1, slot.recent.len() as int).push(
            root.waiter_count,
        ));
    }
    if let Some(lock) = meta {
        if let Some(text) = lock.blocking_query {
            crate::fingerprint::law_fingerprint_is_the_hash_of_the_text(text);
        }
    }
}

/// What a sample leaves in each slot that is in use after it, field by field: the
/// current lock of the backend as the map of representative locks has it, the count
/// and the depth of its root blocker, the history that the slot already had of the
/// same pid, and a flag that says whether the score is at least the threshold.
pub proof fn law_sample_describes_each_blocker(
    before: Seq<BlockerModel>,
    after: Seq<BlockerModel>,
    report: SampleReport,
    graph: Map<i32, Seq<i32>>,
    roots: Seq<RootBlocker>,
    held: Map<i32, MetaModel>,
    now: i64,
    settings: Settings,
    i: int,
    n: int,
)
    requires
        before.len() == 128,
        forall|a: int, b: int|
            #![trigger before[a], before[b]]
            0 <= a < before.len() && 0 <= b < before.len() && before[a].in_use && before[b].in_use
                && before[a].blocking_pid == before[b].blocking_pid ==> a == b,
        are_roots_of(graph, roots),
        is_sampled(before, after, report, roots, held, now, settings),
        0 <= i < after.len(),
        after[i].in_use,
        0 <= n < roots.len(),
        roots[n].pid == after[i].blocking_pid,
    ensures
        after.len() == before.len(),
        ({
            let pid = after[i].blocking_pid;
            let known = before[i].in_use && before[i].blocking_pid == pid;
            let cap = settings.history_cap();
            &&& after[i].cascade_depth == roots[n].cascade_depth
            &&& after[i].recent[after[i].recent.len() - 1] == roots[n].waiter_count
            &&& !known ==> after[i].recent == seq![roots[n].waiter_count]
            &&& known && before[i].recent.len() < cap ==> after[i].recent
                == before[i].recent.push(roots[n].waiter_count)
            &&& known && before[i].recent.len() >= cap ==> after[i].recent
                == before[i].recent.subrange(1, before[i].recent.len() as int).push(
                roots[n].waiter_count,
            )
            &&& held.contains_key(pid) ==> {
                &&& after[i].lock_mode == held[pid].lock_mode
                &&& after[i].relation_oid == held[pid].relation_oid
                &&& held[pid].blocking_query is None ==> after[i].query_fingerprint == 0
                &&& held[pid].blocking_query matches Some(text) ==> (after[i].query_fingerprint
                    == DefaultHasher::spec_finish(str_hash_writes(text))
                    || after[i].query_fingerprint == DefaultHasher::spec_finish(
                    str_hash_writes(text),
                ) - 0x1_0000_0000_0000_0000)
            }
            &&& !held.contains_key(pid) && known ==> {
                &&& after[i].lock_mode == before[i].lock_mode
                &&& after[i].relation_oid == before[i].relation_oid
                &&& after[i].query_fingerprint == before[i].query_fingerprint
                &&& after[i].lock_acquired_at == before[i].lock_acquired_at
                &&& after[i].baseline_hold_micros == before[i].baseline_hold_micros
            }
            &&& !held.contains_key(pid) && !known ==> {
                &&& after[i].lock_mode == crate::lock_mode::LockMode::AccessShare
                &&& after[i].relation_oid == 0
                &&& after[i].query_fingerprint == 0
                &&& after[i].lock_acquired_at is None
                &&& after[i].baseline_hold_micros == 0
            }
            &&& known && before[i].lock_acquired_at is Some ==> after[i].lock_acquired_at
                == before[i].lock_acquired_at && after[i].baseline_hold_micros
                == before[i].baseline_hold_micros
            &&& held.contains_key(pid) && !(known && before[i].lock_acquired_at is Some) ==> {
                &&& after[i].lock_acquired_at == held[pid].held_since
                &&& held[pid].held_since matches Some(since) ==> (now - since > 100_000
                    ==> after[i].baseline_hold_micros == now - since) && (now - since <= 100_000
                    ==> after[i].baseline_hold_micros == 100_000)
                &&& held[pid].held_since is None ==> after[i].baseline_hold_micros == 100_000
            }
            &&& after[i].alerted <==> score_value(after[i], now, settings.weights)
                >= settings.risk_threshold.value()
            &&& !known ==> forall|j: int|
                0 <= j < before.len() ==> !((#[trigger] before[j]).in_use
                    && before[j].blocking_pid == pid)
        }),
{
    lemma_root_pids(graph, roots);
    lemma_all_recorded(before, roots, held, now, settings);
    lemma_recorded_slots(before, roots, held, now, settings);
    let pid = after[i].blocking_pid;
    let recorded = all_recorded(before, roots, held, now, settings);
    let kept = all_evicted(recorded, pids_of(roots));
    assert(kept[i] == evicted(recorded[i], pids_of(roots)));
    assert(kept[i] == recorded[i]);
    assert(after[i] == checked(
        kept[i],
        settings.risk_threshold,
        now,
        settings.weights,
    ));
    crate::scoring::law_score_is_blind_to_the_rest(after[i], kept[i], now, settings.weights);
    let slot = slot_before(before[i], pid);
    assert(shows_what_was_seen(before, roots, held, now, settings, i, n));
    assert(recorded[i] == observed(slot, roots[n], meta_of(held, pid), now, settings)) by {
        reveal(seen);
    }
    law_observation_takes_over_the_lock(slot, roots[n], meta_of(held, pid), now, settings);
    crate::blocker::law_new_slots_are_empty(pid);
    crate::settings::law_caps_follow_the_request(settings, settings);
    if !tracks(before[i], pid) {
        assert(after[i].recent =~= seq![roots[n].waiter_count]);
        assert forall|j: int| 0 <= j < before.len() implies !((#[trigger] before[j]).in_use
            && before[j].blocking_pid == pid) by {
            if before[j].in_use && before[j].blocking_pid == pid {
                assert(tracks(before[j], roots[n].pid));
                assert(shows_what_was_seen(before, roots, held, now, settings, j, n));
                lemma_seen_keeps_the_pid(before[j], roots[n], held, now, settings);
                assert(recorded[j].in_use && recorded[j].blocking_pid == pid);
                assert(i == j);
            }
        }
    }
}

/// After a sample every tracked blocker whose pid is among the representative locks
/// has exactly the lock mode, the relation and the query of its entry, whatever its
/// slot held before.
pub proof fn law_sample_takes_over_the_lock(
    before: Seq<BlockerModel>,
    after: Seq<BlockerModel>,
    report: SampleReport,
    graph: Map<i32, Seq<i32>>,
    roots: Seq<RootBlocker>,
    held: Map<i32, MetaModel>,
    now: i64,
    settings: Settings,
)
    requires
        before.len() == 128,
        forall|a: int, b: int|
            #![trigger before[a], before[b]]
            0 <= a < before.len() && 0 <= b < before.len() && before[a].in_use && before[b].in_use
                && before[a].blocking_pid == before[b].blocking_pid ==> a == b,
        are_roots_of(graph, roots),
        is_sampled(before, after, report, roots, held, now, settings),
    ensures
        forall|i: int|
            0 <= i < after.len() && (#[trigger] after[i]).in_use && held.contains_key(
                after[i].blocking_pid,
            ) ==> {
                let lock = held[after[i].blocking_pid];
                &&& after[i].lock_mode == lock.lock_mode
                &&& after[i].relation_oid == lock.relation_oid
                &&& lock.blocking_query is None ==> after[i].query_fingerprint == 0
                &&& lock.blocking_query matches Some(text) ==> (after[i].query_fingerprint
                    == DefaultHasher::spec_finish(str_hash_writes(text))
                    || after[i].query_fingerprint == DefaultHasher::spec_finish(
                    str_hash_writes(text),
                ) - 0x1_0000_0000_0000_0000)
            },
{
    law_sample_shows_the_latest(before, after, report, graph, roots, held, now, settings);
    assert forall|i: int|
        0 <= i < after.len() && (#[trigger] after[i]).in_use && held.contains_key(
            after[i].blocking_pid,
        ) implies {
        let lock = held[after[i].blocking_pid];
        &&& after[i].lock_mode == lock.lock_mode
        &&& after[i].relation_oid == lock.relation_oid
        &&& lock.blocking_query is None ==> after[i].query_fingerprint == 0
        &&& lock.blocking_query matches Some(text) ==> (after[i].query_fingerprint
            == DefaultHasher::spec_finish(str_hash_writes(text)) || after[i].query_fingerprint
            == DefaultHasher::spec_finish(str_hash_writes(text)) - 0x1_0000_0000_0000_0000)
    } by {
        let n = choose|n: int|
            {
                &&& 0 <= n < roots.len()
                &&& (#[trigger] roots[n]).pid == after[i].blocking_pid
                &&& roots[n].waiter_count == after[i].current_waiter_count()
                &&& roots[n].cascade_depth == after[i].cascade_depth
            };
        law_sample_describes_each_blocker(
            before,
            after,
            report,
            graph,
            roots,
            held,
            now,
            settings,
            i,
            n,
        );
    }
}

/// A root blocker is dropped for want of room only: none is while the cap leaves
/// room for all of them, and where one is, the table has filled up to the cap. A
/// root blocker that is not dropped is tracked after the sample.
pub proof fn law_roots_are_dropped_for_want_of_room(
    before: Seq<BlockerModel>,
    after: Seq<BlockerModel>,
    report: SampleReport,
    graph: Map<i32, Seq<i32>>,
    roots: Seq<RootBlocker>,
    held: Map<i32, MetaModel>,
    now: i64,
    settings: Settings,
)
    requires
        before.len() == 128,
        forall|a: int, b: int|
            #![trigger before[a], before[b]]
            0 <= a < before.len() && 0 <= b < before.len() && before[a].in_use && before[b].in_use
                && before[a].blocking_pid == before[b].blocking_pid ==> a == b,
        are_roots_of(graph, roots),
        is_sampled(before, after, report, roots, held, now, settings),
    ensures
        in_use_count(before) + roots.len() <= settings.tracked_cap() ==> report.dropped@.len() == 0,
        report.dropped@.len() > 0 ==> in_use_count(before) + roots.len() - report.dropped@.len()
            >= settings.tracked_cap(),
        forall|n: int|
            0 <= n < roots.len() && !report.dropped@.contains((#[trigger] roots[n]).pid)
                ==> exists|i: int|
                0 <= i < after.len() && (#[trigger] after[i]).in_use && after[i].blocking_pid
                    == roots[n].pid,
        forall|i: int|
            0 <= i < after.len() && (#[trigger] after[i]).in_use ==> exists|n: int|
                0 <= n < roots.len() && (#[trigger] roots[n]).pid == after[i].blocking_pid,
        forall|k: int|
            0 <= k < report.dropped@.len() ==> exists|n: int|
                0 <= n < roots.len() && (#[trigger] roots[n]).pid == #[trigger] report.dropped@[k],
{
    lemma_root_pids(graph, roots);
    lemma_recorded_exactly(before, roots, held, now, settings);
    roots.lemma_filter_len(|root: RootBlocker| !is_tracked(before, root.pid));
    law_sample_tracks_the_roots(before, after, report, graph, roots, held, now, settings);
    law_sample_shows_the_latest(before, after, report, graph, roots, held, now, settings);
    assert forall|n: int|
        0 <= n < roots.len() && !report.dropped@.contains(
            (#[trigger] roots[n]).pid,
        ) implies exists|i: int|
        0 <= i < after.len() && (#[trigger] after[i]).in_use && after[i].blocking_pid
            == roots[n].pid by {
        assert(pids_of(roots)[n] == roots[n].pid);
        assert(pids_of(roots).contains(roots[n].pid));
        assert(is_tracked(after, roots[n].pid));
        let i = choose|i: int| 0 <= i < after.len() && tracks(#[trigger] after[i], roots[n].pid);
        assert(after[i].in_use);
    }
    assert forall|k: int| 0 <= k < report.dropped@.len() implies exists|n: int|
        0 <= n < roots.len() && (#[trigger] roots[n]).pid == #[trigger] report.dropped@[k] by {
        let pid = report.dropped@[k];
        assert(report.dropped@.contains(pid));
        assert(is_root(graph, pid));
        assert(pids_of(roots).contains(pid));
        let n = choose|n: int| 0 <= n < pids_of(roots).len() && pids_of(roots)[n] == pid;
        assert(roots[n].pid == pid);
    }
}

/// A sample may record a pid exactly if a slot is in use for it or fewer slots are in
/// use than the cap allows.
pub proof fn law_room_is_a_slot_or_space(slots: Seq<BlockerModel>, pid: i32, settings: Settings)
    ensures
        (exists|i: int|
            0 <= i < slots.len() && (#[trigger] slots[i]).in_use && slots[i].blocking_pid == pid)
            ==> has_room(slots, pid, settings),
        in_use_count(slots) < settings.tracked_cap() ==> has_room(slots, pid, settings),
        in_use_count(slots) >= settings.tracked_cap() && (forall|i: int|
            0 <= i < slots.len() ==> !((#[trigger] slots[i]).in_use && slots[i].blocking_pid
                == pid)) ==> !has_room(slots, pid, settings),
{
    crate::table::law_slot_of_a_pid(slots, pid, 0);
}

/// Whether a tracked pid is hot is a matter of the score of its one slot.
proof fn lemma_hot_by_score(slots: Seq<BlockerModel>, i: int, now: i64, settings: Settings)
    requires
        pids_unique(slots),
        0 <= i < slots.len(),
        slots[i].in_use,
    ensures
        is_hot_blocker(slots, slots[i].blocking_pid, now, settings) <==> score_value(
            slots[i],
            now,
            settings.weights,
        ) >= settings.risk_threshold.value(),
{
    let pid = slots[i].blocking_pid;
    assert(hot_at(slots, pid, now, settings, i) <==> score_value(slots[i], now, settings.weights)
        >= settings.risk_threshold.value());
    if is_hot_blocker(slots, pid, now, settings) {
        let m = choose|m: int| 0 <= m < slots.len() && hot_at(slots, pid, now, settings, m);
        assert(slots[m].in_use && slots[m].blocking_pid == pid);
    }
}

proof fn lemma_flagged_before(slots: Seq<BlockerModel>, pid: i32)
    ensures
        is_flagged(slots, pid) <==> !(forall|j: int|
            0 <= j < slots.len() && (#[trigger] slots[j]).in_use && slots[j].blocking_pid == pid
                ==> !slots[j].alerted),
{
    if is_flagged(slots, pid) {
        let j = choose|j: int| 0 <= j < slots.len() && flagged_at(slots, pid, j);
        assert(slots[j].in_use && slots[j].blocking_pid == pid && slots[j].alerted);
    } else {
        assert forall|j: int|
            0 <= j < slots.len() && (#[trigger] slots[j]).in_use && slots[j].blocking_pid
                == pid implies !slots[j].alerted by {
            assert(!flagged_at(slots, pid, j));
        }
    }
}

/// A sample reports by the score: a blocker that is tracked after it is reported if
/// and only if its score is at least the threshold and no slot was in use and flagged
/// for its pid before.
pub proof fn law_sample_reports_by_the_score(
    before: Seq<BlockerModel>,
    after: Seq<BlockerModel>,
    report: SampleReport,
    graph: Map<i32, Seq<i32>>,
    roots: Seq<RootBlocker>,
    held: Map<i32, MetaModel>,
    now: i64,
    settings: Settings,
)
    requires
        before.len() == 128,
        forall|a: int, b: int|
            #![trigger before[a], before[b]]
            0 <= a < before.len() && 0 <= b < before.len() && before[a].in_use && before[b].in_use
                && before[a].blocking_pid == before[b].blocking_pid ==> a == b,
        are_roots_of(graph, roots),
        is_sampled(before, after, report, roots, held, now, settings),
    ensures
        forall|i: int|
            #![trigger after[i]]
            0 <= i < after.len() && after[i].in_use ==> ((exists|k: int|
                0 <= k < report.alerts@.len() && (#[trigger] report.alerts@[k]).0.blocking_pid
                    == after[i].blocking_pid) <==> score_value(after[i], now, settings.weights)
                >= settings.risk_threshold.value() && (forall|j: int|
                0 <= j < before.len() && (#[trigger] before[j]).in_use && before[j].blocking_pid
                    == after[i].blocking_pid ==> !before[j].alerted)),
{
    law_sample_alerts_once_per_episode(before, after, report, graph, roots, held, now, settings);
    law_sample_tracks_the_roots(before, after, report, graph, roots, held, now, settings);
    assert forall|i: int|
        #![trigger after[i]]
        0 <= i < after.len() && after[i].in_use implies ((exists|k: int|
            0 <= k < report.alerts@.len() && (#[trigger] report.alerts@[k]).0.blocking_pid
                == after[i].blocking_pid) <==> score_value(after[i], now, settings.weights)
        >= settings.risk_threshold.value() && (forall|j: int|
        0 <= j < before.len() && (#[trigger] before[j]).in_use && before[j].blocking_pid
            == after[i].blocking_pid ==> !before[j].alerted)) by {
        let pid = after[i].blocking_pid;
        assert(is_reported(report, pid) <==> is_hot_blocker(after, pid, now, settings)
            && !is_flagged(before, pid));
        lemma_hot_by_score(after, i, now, settings);
        lemma_flagged_before(before, pid);
    }
}

/// An alert holds the slot of its blocker as it stands after the sample, and the score
/// that the blocker then has.
pub proof fn law_alerts_hold_the_slot_and_its_score(
    before: Seq<BlockerModel>,
    after: Seq<BlockerModel>,
    report: SampleReport,
    roots: Seq<RootBlocker>,
    held: Map<i32, MetaModel>,
    now: i64,
    settings: Settings,
    k: int,
)
    requires
        is_sampled(before, after, report, roots, held, now, settings),
        0 <= k < report.alerts@.len(),
    ensures
        report.alerts@[k].1.den@ > 0,
        exists|i: int|
            0 <= i < after.len() && (#[trigger] after[i]).in_use && after[i].alerted
                && report.alerts@[k].0@ == after[i] && report.alerts@[k].1.value() == score_value(
                after[i],
                now,
                settings.weights,
            ),
{
    let recorded = all_recorded(before, roots, held, now, settings);
    lemma_alert_of_a_check(
        all_evicted(recorded, pids_of(roots)),
        after,
        report.alerts@,
        now,
        settings,
        k,
    );
}

proof fn lemma_alert_of_a_check(
    kept: Seq<BlockerModel>,
    after: Seq<BlockerModel>,
    alerts: Seq<(BlockerState, Fraction)>,
    now: i64,
    settings: Settings,
    k: int,
)
    requires
        after == all_checked(kept, now, settings),
        reports(alerts, kept, settings.risk_threshold, now, settings.weights),
        0 <= k < alerts.len(),
    ensures
        alerts[k].1.den@ > 0,
        exists|i: int|
            0 <= i < after.len() && (#[trigger] after[i]).in_use && after[i].alerted
                && alerts[k].0@ == after[i] && alerts[k].1.value() == score_value(
                after[i],
                now,
                settings.weights,
            ),
{
    let p = |slot: BlockerModel|
        crate::table::fires(slot, settings.risk_threshold, now, settings.weights);
    let fired = kept.filter(p);
    kept.lemma_filter_pred(p, k);
    kept.lemma_filter_contains_rev(p, fired[k]);
    let i = choose|i: int| 0 <= i < kept.len() && kept[i] == fired[k];
    assert(after[i] == checked(kept[i], settings.risk_threshold, now, settings.weights));
    crate::scoring::law_score_is_blind_to_the_rest(after[i], kept[i], now, settings.weights);
    assert(after[i].in_use && after[i].alerted);
}

/// New root blockers are recorded as long as the table holds fewer blockers than the
/// cap, those that it held before the sample included: each one that was not tracked
/// before either takes a slot or is dropped, none takes a slot beyond the cap, and
/// none is dropped below it. `fresh` is the number of root blockers that no slot was
/// in use for before the sample.
pub proof fn law_the_table_fills_up_to_the_cap(
    before: Seq<BlockerModel>,
    after: Seq<BlockerModel>,
    report: SampleReport,
    graph: Map<i32, Seq<i32>>,
    roots: Seq<RootBlocker>,
    held: Map<i32, MetaModel>,
    now: i64,
    settings: Settings,
    fresh: int,
)
    requires
        before.len() == 128,
        forall|a: int, b: int|
            #![trigger before[a], before[b]]
            0 <= a < before.len() && 0 <= b < before.len() && before[a].in_use && before[b].in_use
                && before[a].blocking_pid == before[b].blocking_pid ==> a == b,
        are_roots_of(graph, roots),
        is_sampled(before, after, report, roots, held, now, settings),
        fresh == roots.filter(
            |root: RootBlocker|
                !(exists|i: int|
                    0 <= i < before.len() && (#[trigger] before[i]).in_use
                        && before[i].blocking_pid == root.pid),
        ).len(),
    ensures
        0 <= report.dropped@.len() <= fresh,
        in_use_count(before) + fresh <= settings.tracked_cap() ==> report.dropped@.len() == 0,
        in_use_count(before) + fresh > settings.tracked_cap() && in_use_count(before)
            <= settings.tracked_cap() ==> in_use_count(before) + fresh - report.dropped@.len()
            == settings.tracked_cap(),
        in_use_count(before) > settings.tracked_cap() ==> report.dropped@.len() == fresh,
{
    let p = |root: RootBlocker|
        !(exists|i: int|
            0 <= i < before.len() && (#[trigger] before[i]).in_use && before[i].blocking_pid
                == root.pid);
    let q = |root: RootBlocker| !is_tracked(before, root.pid);
    assert forall|root: RootBlocker| #[trigger] p(root) == q(root) by {
        crate::table::law_slot_of_a_pid(before, root.pid, 0);
    }
    assert(p =~= q);
    lemma_root_pids(graph, roots);
    lemma_recorded_exactly(before, roots, held, now, settings);
}

/// How many slots are in use once root blockers are recorded.
proof fn lemma_recorded_exactly(
    slots: Seq<BlockerModel>,
    roots: Seq<RootBlocker>,
    held: Map<i32, MetaModel>,
    now: i64,
    settings: Settings,
)
    requires
        slots.len() == MAX_BLOCKERS,
        pids_unique(slots),
        pids_of(roots).no_duplicates(),
    ensures
        ({
            let next = all_recorded(slots, roots, held, now, settings);
            let dropped = dropped_pids(slots, roots, held, now, settings);
            let fresh = roots.filter(|root: RootBlocker| !is_tracked(slots, root.pid));
            let cap = settings.tracked_cap();
            &&& in_use_count(next) + dropped.len() == in_use_count(slots) + fresh.len()
            &&& in_use_count(slots) <= cap ==> in_use_count(next) <= cap
            &&& in_use_count(slots) > cap ==> in_use_count(next) == in_use_count(slots)
            &&& in_use_count(next) >= in_use_count(slots)
            &&& dropped.len() > 0 ==> in_use_count(next) >= cap
        }),
    decreases roots.len(),
{
    reveal(Seq::filter);
    if roots.len() > 0 {
        let rest = roots.drop_last();
        let root = roots.last();
        assert(pids_of(rest) =~= pids_of(roots).drop_last());
        lemma_recorded_exactly(slots, rest, held, now, settings);
        lemma_all_recorded(slots, rest, held, now, settings);
        let mid = all_recorded(slots, rest, held, now, settings);
        let next = all_recorded(slots, roots, held, now, settings);
        assert(!pids_of(rest).contains(root.pid)) by {
            if pids_of(rest).contains(root.pid) {
                let k = choose|k: int| 0 <= k < rest.len() && pids_of(rest)[k] == root.pid;
                assert(pids_of(roots)[k] == pids_of(roots)[rest.len() as int]);
            }
        }
        assert(is_tracked(mid, root.pid) == is_tracked(slots, root.pid));
        if has_room(mid, root.pid, settings) {
            lemma_slot_exists(mid, root.pid, settings);
            let i = slot_for(mid, root.pid);
            crate::table::law_upsert_tracks_the_pid(
                mid,
                root.pid,
                in_use_count(mid) as int + 1,
                i,
                next[i],
            );
            assert(next =~= mid.update(i, next[i]));
        }
    }
}

} // verus!
