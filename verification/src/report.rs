//! What is shown of the table, and what an alert says.

use crate::blocker::{BlockerModel, BlockerState, INVALID_OID};
use crate::json::json_object;
#[allow(unused_imports)]
use crate::json::{decimal, member, object_of_four, rewritten_literal};
use crate::ratio::Fraction;
#[allow(unused_imports)]
use crate::scoring::score_value;
use crate::settings::Weights;
use crate::table::{snapshot, BlockerTable};
use vstd::prelude::*;

verus! {

/// One row of the current state. The name of the relation is not tracked: it is
/// looked up by its oid when the row is shown.
#[derive(Debug)]
pub struct StateRow {
    pub blocking_pid: i32,
    pub waiter_count: i32,
    pub risk_score: Fraction,
    /// The relation whose name is to be shown, if there is one.
    pub relation_oid: Option<u32>,
    pub held_since: Option<i64>,
    pub query_fingerprint: i64,
    pub cascade_depth: i32,
}

/// The row shows the blocker as it is at `now`.
pub open spec fn shows(row: StateRow, slot: BlockerModel, now: i64, weights: Weights) -> bool {
    &&& row.blocking_pid == slot.blocking_pid
    &&& row.waiter_count == slot.current_waiter_count()
    &&& row.risk_score.wf()
    &&& row.risk_score.num@ <= row.risk_score.den@
    &&& row.risk_score.value() == score_value(slot, now, weights)
    &&& row.relation_oid == if slot.relation_oid != INVALID_OID {
        Some(slot.relation_oid)
    } else {
        None
    }
    &&& row.held_since == slot.lock_acquired_at
    &&& row.query_fingerprint == slot.query_fingerprint
    &&& row.cascade_depth == slot.cascade_depth
}

/// A lock taken at `a` is fresher than one taken at `b`; one whose start is not
/// known is never the fresher one.
pub open spec fn is_fresher(a: Option<i64>, b: Option<i64>) -> bool {
    match (a, b) {
        (Some(a), Some(b)) => a > b,
        (Some(_), None) => true,
        (None, _) => false,
    }
}

/// `blocker` put into its place among `sorted`: before the first blocker that it
/// is fresher than.
pub open spec fn inserted(sorted: Seq<BlockerState>, blocker: BlockerState) -> Seq<BlockerState>
    decreases sorted.len(),
{
    if sorted.len() == 0 {
        seq![blocker]
    } else if is_fresher(blocker.lock_acquired_at, sorted.first().lock_acquired_at) {
        seq![blocker] + sorted
    } else {
        seq![sorted.first()] + inserted(sorted.drop_first(), blocker)
    }
}

/// The blockers ordered by the start of their locks, freshest first; equally
/// fresh ones keep their order.
pub open spec fn freshest_first(blockers: Seq<BlockerState>) -> Seq<BlockerState>
    decreases blockers.len(),
{
    if blockers.len() == 0 {
        Seq::empty()
    } else {
        inserted(freshest_first(blockers.drop_last()), blockers.last())
    }
}

fn fresher(a: Option<i64>, b: Option<i64>) -> (r: bool)
    ensures
        r == is_fresher(a, b),
{
    match (a, b) {
        (Some(a), Some(b)) => a > b,
        (Some(_), None) => true,
        (None, _) => false,
    }
}

proof fn lemma_inserted_at(sorted: Seq<BlockerState>, blocker: BlockerState, k: int)
    requires
        0 <= k <= sorted.len(),
        forall|j: int|
            0 <= j < k ==> !is_fresher(
                blocker.lock_acquired_at,
                (#[trigger] sorted[j]).lock_acquired_at,
            ),
        k < sorted.len() ==> is_fresher(blocker.lock_acquired_at, sorted[k].lock_acquired_at),
    ensures
        inserted(sorted, blocker) == sorted.insert(k, blocker),
    decreases sorted.len(),
{
    if sorted.len() == 0 {
        assert(sorted.insert(k, blocker) =~= seq![blocker]);
    } else if k == 0 {
        assert(sorted.insert(0, blocker) =~= seq![blocker] + sorted);
    } else {
        assert(!is_fresher(blocker.lock_acquired_at, sorted[0].lock_acquired_at));
        let rest = sorted.drop_first();
        assert forall|j: int| 0 <= j < k - 1 implies !is_fresher(
            blocker.lock_acquired_at,
            (#[trigger] rest[j]).lock_acquired_at,
        ) by {
            assert(rest[j] == sorted[j + 1]);
        }
        lemma_inserted_at(rest, blocker, k - 1);
        assert(sorted.insert(k, blocker) =~= seq![sorted.first()] + rest.insert(k - 1, blocker));
    }
}

fn sort_freshest_first(blockers: &[BlockerState]) -> (r: Vec<BlockerState>)
    requires
        forall|k: int| 0 <= k < blockers@.len() ==> (#[trigger] blockers@[k]).wf(),
    ensures
        r@ == freshest_first(blockers@),
        forall|k: int| 0 <= k < r@.len() ==> (#[trigger] r@[k]).wf(),
{
    let mut sorted: Vec<BlockerState> = Vec::new();
    let mut i: usize = 0;
    while i < blockers.len()
        invariant
            i <= blockers@.len(),
            forall|k: int| 0 <= k < blockers@.len() ==> (#[trigger] blockers@[k]).wf(),
            sorted@ == freshest_first(blockers@.take(i as int)),
            forall|k: int| 0 <= k < sorted@.len() ==> (#[trigger] sorted@[k]).wf(),
        decreases blockers@.len() - i,
    {
        let blocker = blockers[i];
        assert(blockers@.take(i + 1).drop_last() =~= blockers@.take(i as int));
        assert(blockers@.take(i + 1).last() == blocker);
        let mut k: usize = 0;
        while k < sorted.len() && !fresher(blocker.lock_acquired_at, sorted[k].lock_acquired_at)
            invariant
                k <= sorted@.len(),
                forall|j: int|
                    0 <= j < k ==> !is_fresher(
                        blocker.lock_acquired_at,
                        (#[trigger] sorted@[j]).lock_acquired_at,
                    ),
            decreases sorted@.len() - k,
        {
            k = k + 1;
        }
        proof {
            lemma_inserted_at(sorted@, blocker, k as int);
        }
        sorted.insert(k, blocker);
        i = i + 1;
    }
    assert(blockers@.take(i as int) =~= blockers@);
    sorted
}

/// Current risk-scored state of all tracked blockers, freshest first.
pub fn lockwatch_current_state(table: &BlockerTable, now: i64, weights: &Weights) -> (r: Vec<
    StateRow,
>)
    requires
        table.wf(),
    ensures
        ({
            let blockers = freshest_first(
                table.slots@.filter(|slot: BlockerState| slot.in_use),
            );
            &&& r@.len() == blockers.len()
            &&& forall|k: int|
                0 <= k < r@.len() ==> shows(#[trigger] r@[k], blockers[k]@, now, *weights)
        }),
        forall|k: int|
            #![trigger r@[k]]
            0 <= k < r@.len() ==> r@[k].risk_score.den@ > 0 && exists|i: int|
                #![trigger table.slots@[i]]
                {
                    &&& 0 <= i < table.slots@.len()
                    &&& table.slots@[i].in_use
                    &&& r@[k].blocking_pid == table.slots@[i].blocking_pid
                    &&& table.slots@[i].history_len == 0 ==> r@[k].waiter_count == 0
                    &&& table.slots@[i].history_len > 0 ==> r@[k].waiter_count
                        == table.slots@[i].waiter_history@[(table.slots@[i].history_head + 15) % 16]
                    &&& r@[k].risk_score.den@ > 0
                    &&& r@[k].risk_score.value() == score_value(table.slots@[i]@, now, *weights)
                    &&& table.slots@[i].relation_oid == 0 ==> r@[k].relation_oid is None
                    &&& table.slots@[i].relation_oid != 0 ==> r@[k].relation_oid == Some(
                        table.slots@[i].relation_oid,
                    )
                    &&& r@[k].held_since == table.slots@[i].lock_acquired_at
                    &&& r@[k].query_fingerprint == table.slots@[i].query_fingerprint
                    &&& r@[k].cascade_depth == table.slots@[i].cascade_depth
                },
{
    let blockers = snapshot(table);
    let sorted = sort_freshest_first(blockers.as_slice());
    let mut rows: Vec<StateRow> = Vec::new();
    let mut i: usize = 0;
    while i < sorted.len()
        invariant
            i <= sorted@.len(),
            forall|k: int| 0 <= k < sorted@.len() ==> (#[trigger] sorted@[k]).wf(),
            rows@.len() == i,
            forall|k: int|
                0 <= k < i ==> shows(#[trigger] rows@[k], sorted@[k]@, now, *weights),
        decreases sorted@.len() - i,
    {
        let blocker = sorted[i];
        rows.push(
            StateRow {
                blocking_pid: blocker.blocking_pid,
                waiter_count: blocker.current_waiter_count(),
                risk_score: blocker.risk_score(now, weights),
                relation_oid: if blocker.relation_oid != INVALID_OID {
                    Some(blocker.relation_oid)
                } else {
                    None
                },
                held_since: blocker.lock_acquired_at,
                query_fingerprint: blocker.query_fingerprint,
                cascade_depth: blocker.cascade_depth as i32,
            },
        );
        i = i + 1;
    }
    proof {
        law_rows_show_every_blocker(*table, rows@, now, *weights);
    }
    rows
}

/// The order shows every tracked blocker exactly once, and a fresher one never
/// after a less fresh one.
pub proof fn law_freshest_first_is_sorted(blockers: Seq<BlockerState>)
    ensures
        freshest_first(blockers).to_multiset() == blockers.to_multiset(),
        forall|i: int, j: int|
            0 <= i < j < freshest_first(blockers).len() ==> !is_fresher(
                (#[trigger] freshest_first(blockers)[j]).lock_acquired_at,
                (#[trigger] freshest_first(blockers)[i]).lock_acquired_at,
            ),
    decreases blockers.len(),
{
    broadcast use vstd::seq_lib::group_to_multiset_ensures;

    if blockers.len() == 0 {
        assert(freshest_first(blockers) =~= blockers);
    } else {
        let rest = blockers.drop_last();
        law_freshest_first_is_sorted(rest);
        lemma_inserted_is_sorted(freshest_first(rest), blockers.last());
        assert(blockers =~= rest.push(blockers.last()));
    }
}

/// Whether no blocker stands before a fresher one.
spec fn is_sorted(blockers: Seq<BlockerState>) -> bool {
    forall|i: int, j: int|
        0 <= i < j < blockers.len() ==> !is_fresher(
            (#[trigger] blockers[j]).lock_acquired_at,
            (#[trigger] blockers[i]).lock_acquired_at,
        )
}

proof fn lemma_inserted_is_sorted(sorted: Seq<BlockerState>, blocker: BlockerState)
    requires
        is_sorted(sorted),
    ensures
        is_sorted(inserted(sorted, blocker)),
        inserted(sorted, blocker).to_multiset() == sorted.to_multiset().insert(blocker),
        forall|k: int|
            0 <= k < inserted(sorted, blocker).len() ==> (#[trigger] inserted(sorted, blocker)[k])
                == blocker || sorted.contains(inserted(sorted, blocker)[k]),
    decreases sorted.len(),
{
    broadcast use vstd::seq_lib::group_to_multiset_ensures;

    let k = lemma_place(sorted, blocker, 0);
    lemma_inserted_at(sorted, blocker, k);
    let next = sorted.insert(k, blocker);
    assert forall|i: int, j: int| 0 <= i < j < next.len() implies !is_fresher(
        (#[trigger] next[j]).lock_acquired_at,
        (#[trigger] next[i]).lock_acquired_at,
    ) by {
        let a = if i < k {
            i
        } else {
            i - 1
        };
        let b = if j < k {
            j
        } else {
            j - 1
        };
        if i != k && j != k {
            assert(!is_fresher(sorted[b].lock_acquired_at, sorted[a].lock_acquired_at));
        } else if i == k {
            assert(j > k);
            assert(b >= k);
            if b > k {
                assert(!is_fresher(sorted[b].lock_acquired_at, sorted[k].lock_acquired_at));
            }
        } else {
            assert(i < k);
            assert(!is_fresher(blocker.lock_acquired_at, sorted[i].lock_acquired_at));
        }
    }
}

/// The place of `blocker` among `sorted`, searched from `from` on.
proof fn lemma_place(sorted: Seq<BlockerState>, blocker: BlockerState, from: int) -> (k: int)
    requires
        0 <= from <= sorted.len(),
        forall|j: int|
            0 <= j < from ==> !is_fresher(
                blocker.lock_acquired_at,
                (#[trigger] sorted[j]).lock_acquired_at,
            ),
    ensures
        0 <= k <= sorted.len(),
        forall|j: int|
            0 <= j < k ==> !is_fresher(
                blocker.lock_acquired_at,
                (#[trigger] sorted[j]).lock_acquired_at,
            ),
        k < sorted.len() ==> is_fresher(blocker.lock_acquired_at, sorted[k].lock_acquired_at),
    decreases sorted.len() - from,
{
    if from == sorted.len() || is_fresher(blocker.lock_acquired_at, sorted[from].lock_acquired_at) {
        from
    } else {
        lemma_place(sorted, blocker, from + 1)
    }
}

/// The text of a notification, spelled out.
proof fn lemma_payload(pid: Seq<char>, fingerprint: Seq<char>, score: Seq<char>, count: Seq<char>)
    ensures
        object_of_four(
            member("blocking_pid"@, pid),
            member("query_fingerprint"@, fingerprint),
            member("risk_score"@, score),
            member("waiter_count"@, count),
        ) == "{\"blocking_pid\":"@ + pid + ",\"query_fingerprint\":"@ + fingerprint
            + ",\"risk_score\":"@ + score + ",\"waiter_count\":"@ + count + "}"@,
{
    reveal_strlit("blocking_pid");
    reveal_strlit("query_fingerprint");
    reveal_strlit("risk_score");
    reveal_strlit("waiter_count");
    reveal_strlit("{\"blocking_pid\":");
    reveal_strlit(",\"query_fingerprint\":");
    reveal_strlit(",\"risk_score\":");
    reveal_strlit(",\"waiter_count\":");
    reveal_strlit("}");
    assert("{\"blocking_pid\":"@ =~= seq!['{', '"'] + "blocking_pid"@ + seq!['"', ':']);
    assert(",\"query_fingerprint\":"@ =~= seq![',', '"'] + "query_fingerprint"@ + seq!['"', ':']);
    assert(",\"risk_score\":"@ =~= seq![',', '"'] + "risk_score"@ + seq!['"', ':']);
    assert(",\"waiter_count\":"@ =~= seq![',', '"'] + "waiter_count"@ + seq!['"', ':']);
    assert("}"@ =~= seq!['}']);
    let (a, b, c, d) = (
        member("blocking_pid"@, pid),
        member("query_fingerprint"@, fingerprint),
        member("risk_score"@, score),
        member("waiter_count"@, count),
    );
    assert(seq!['{'] + a =~= "{\"blocking_pid\":"@ + pid);
    let first = "{\"blocking_pid\":"@ + pid;
    assert(first + seq![','] + b =~= first + ",\"query_fingerprint\":"@ + fingerprint);
    let second = first + ",\"query_fingerprint\":"@ + fingerprint;
    assert(second + seq![','] + c =~= second + ",\"risk_score\":"@ + score);
    let third = second + ",\"risk_score\":"@ + score;
    assert(third + seq![','] + d =~= third + ",\"waiter_count\":"@ + count);
}

/// The notification sent for an alert: a JSON object with the pid, the query
/// fingerprint, the score and the number of waiters of the blocker. `risk_score`
/// is the score written as a JSON number; `None` where it is not valid JSON.
pub fn alert_payload(blocker: &BlockerState, risk_score: &str) -> (r: Option<String>)
    requires
        blocker.wf(),
    ensures
        match (r, rewritten_literal(risk_score@)) {
            (Some(text), Some(score)) => text@ == object_of_four(
                member("blocking_pid"@, decimal(blocker.blocking_pid as int)),
                member("query_fingerprint"@, decimal(blocker.query_fingerprint as int)),
                member("risk_score"@, score),
                member("waiter_count"@, decimal(blocker@.current_waiter_count())),
            ),
            (None, None) => true,
            _ => false,
        },
        r matches Some(text) ==> (rewritten_literal(risk_score@) matches Some(score) ==> text@
            == "{\"blocking_pid\":"@ + decimal(blocker.blocking_pid as int)
            + ",\"query_fingerprint\":"@ + decimal(blocker.query_fingerprint as int)
            + ",\"risk_score\":"@ + score + ",\"waiter_count\":"@ + decimal(
            if blocker.history_len == 0 {
                0
            } else {
                blocker.waiter_history@[(blocker.history_head + 15) % 16] as int
            },
        ) + "}"@),
{
    proof {
        reveal_strlit("blocking_pid");
        reveal_strlit("query_fingerprint");
        reveal_strlit("risk_score");
        reveal_strlit("waiter_count");
    }
    let r = json_object(
        ("blocking_pid", blocker.blocking_pid as i64),
        ("query_fingerprint", blocker.query_fingerprint),
        ("risk_score", risk_score),
        ("waiter_count", blocker.current_waiter_count() as i64),
    );
    proof {
        if let Some(score) = rewritten_literal(risk_score@) {
            lemma_payload(
                decimal(blocker.blocking_pid as int),
                decimal(blocker.query_fingerprint as int),
                score,
                decimal(blocker@.current_waiter_count()),
            );
        }
    }
    r
}

/// Every row shows a tracked blocker as it stands at the given time, with the score
/// that the blocker has at that very time, and every tracked blocker has a row. There
/// are as many rows as slots in use, and a lock taken later never comes after one
/// taken earlier, nor any lock after one whose start is not known.
pub proof fn law_rows_show_every_blocker(
    table: BlockerTable,
    rows: Seq<StateRow>,
    now: i64,
    weights: Weights,
)
    requires
        table.wf(),
        rows.len() == freshest_first(
            table.slots@.filter(|slot: BlockerState| slot.in_use),
        ).len(),
        forall|k: int|
            0 <= k < rows.len() ==> shows(
                #[trigger] rows[k],
                freshest_first(table.slots@.filter(|slot: BlockerState| slot.in_use))[k]@,
                now,
                weights,
            ),
    ensures
        ({
            let slots = table.slots@;
            &&& forall|k: int|
                #![trigger rows[k]]
                0 <= k < rows.len() ==> rows[k].risk_score.den@ > 0 && exists|i: int|
                    #![trigger slots[i]]
                {
                    &&& 0 <= i < slots.len()
                    &&& slots[i].in_use
                    &&& rows[k].blocking_pid == slots[i].blocking_pid
                    &&& slots[i].history_len == 0 ==> rows[k].waiter_count == 0
                    &&& slots[i].history_len > 0 ==> rows[k].waiter_count
                        == slots[i].waiter_history@[(slots[i].history_head + 15) % 16]
                    &&& rows[k].risk_score.den@ > 0
                    &&& rows[k].risk_score.value() == score_value(slots[i]@, now, weights)
                    &&& slots[i].relation_oid == 0 ==> rows[k].relation_oid is None
                    &&& slots[i].relation_oid != 0 ==> rows[k].relation_oid == Some(
                        slots[i].relation_oid,
                    )
                    &&& rows[k].held_since == slots[i].lock_acquired_at
                    &&& rows[k].query_fingerprint == slots[i].query_fingerprint
                    &&& rows[k].cascade_depth == slots[i].cascade_depth
                }
            &&& forall|i: int|
                #![trigger slots[i]]
                0 <= i < slots.len() && slots[i].in_use ==> exists|k: int|
                    #![trigger rows[k]]
                {
                    &&& 0 <= k < rows.len()
                    &&& slots[i].in_use
                    &&& rows[k].blocking_pid == slots[i].blocking_pid
                    &&& slots[i].history_len == 0 ==> rows[k].waiter_count == 0
                    &&& slots[i].history_len > 0 ==> rows[k].waiter_count
                        == slots[i].waiter_history@[(slots[i].history_head + 15) % 16]
                    &&& rows[k].risk_score.den@ > 0
                    &&& rows[k].risk_score.value() == score_value(slots[i]@, now, weights)
                    &&& slots[i].relation_oid == 0 ==> rows[k].relation_oid is None
                    &&& slots[i].relation_oid != 0 ==> rows[k].relation_oid == Some(
                        slots[i].relation_oid,
                    )
                    &&& rows[k].held_since == slots[i].lock_acquired_at
                    &&& rows[k].query_fingerprint == slots[i].query_fingerprint
                    &&& rows[k].cascade_depth == slots[i].cascade_depth
                }
            &&& rows.len() == slots.filter(|slot: BlockerState| slot.in_use).len()
            &&& forall|k: int, l: int|
                #![trigger rows[k], rows[l]]
                0 <= k < l < rows.len() ==> (rows[l].held_since matches Some(later) ==> (
                rows[k].held_since matches Some(earlier) && earlier >= later))
        }),
{
    broadcast use vstd::seq_lib::group_to_multiset_ensures;

    let slots = table.slots@;
    let p = |slot: BlockerState| slot.in_use;
    let used = slots.filter(p);
    let sorted = freshest_first(used);
    law_freshest_first_is_sorted(used);
    assert(sorted.len() == used.len()) by {
        assert(sorted.to_multiset().len() == used.to_multiset().len());
    }
    assert forall|k: int|
        #![trigger rows[k]]
        0 <= k < rows.len() implies rows[k].risk_score.den@ > 0 && exists|i: int|
            #![trigger slots[i]]
        {
            &&& 0 <= i < slots.len()
            &&& slots[i].in_use
                &&& rows[k].blocking_pid == slots[i].blocking_pid
                &&& slots[i].history_len == 0 ==> rows[k].waiter_count == 0
                &&& slots[i].history_len > 0 ==> rows[k].waiter_count
                    == slots[i].waiter_history@[(slots[i].history_head + 15) % 16]
                &&& rows[k].risk_score.den@ > 0
                &&& rows[k].risk_score.value() == score_value(slots[i]@, now, weights)
                &&& slots[i].relation_oid == 0 ==> rows[k].relation_oid is None
                &&& slots[i].relation_oid != 0 ==> rows[k].relation_oid == Some(
                    slots[i].relation_oid,
                )
                &&& rows[k].held_since == slots[i].lock_acquired_at
                &&& rows[k].query_fingerprint == slots[i].query_fingerprint
                &&& rows[k].cascade_depth == slots[i].cascade_depth
        } by {
        assert(sorted.contains(sorted[k]));
        assert(used.contains(sorted[k])) by {
            assert(sorted.to_multiset().count(sorted[k]) > 0);
        }
        slots.lemma_filter_contains_rev(p, sorted[k]);
        let j = choose|j: int| 0 <= j < used.len() && used[j] == sorted[k];
        slots.lemma_filter_pred(p, j);
        let i = choose|i: int| 0 <= i < slots.len() && slots[i] == sorted[k];
        crate::blocker::law_model_reads_the_slot(slots[i], 0);
        assert(shows(rows[k], slots[i]@, now, weights));
        assert(slots[i].in_use);
    }
    assert forall|i: int|
        #![trigger slots[i]]
        0 <= i < slots.len() && slots[i].in_use implies exists|k: int|
            #![trigger rows[k]]
        {
            &&& 0 <= k < rows.len()
            &&& slots[i].in_use
                &&& rows[k].blocking_pid == slots[i].blocking_pid
                &&& slots[i].history_len == 0 ==> rows[k].waiter_count == 0
                &&& slots[i].history_len > 0 ==> rows[k].waiter_count
                    == slots[i].waiter_history@[(slots[i].history_head + 15) % 16]
                &&& rows[k].risk_score.den@ > 0
                &&& rows[k].risk_score.value() == score_value(slots[i]@, now, weights)
                &&& slots[i].relation_oid == 0 ==> rows[k].relation_oid is None
                &&& slots[i].relation_oid != 0 ==> rows[k].relation_oid == Some(
                    slots[i].relation_oid,
                )
                &&& rows[k].held_since == slots[i].lock_acquired_at
                &&& rows[k].query_fingerprint == slots[i].query_fingerprint
                &&& rows[k].cascade_depth == slots[i].cascade_depth
        } by {
        slots.lemma_filter_contains(p, i);
        assert(sorted.contains(slots[i])) by {
            assert(used.to_multiset().count(slots[i]) > 0);
        }
        let k = choose|k: int| 0 <= k < sorted.len() && sorted[k] == slots[i];
        crate::blocker::law_model_reads_the_slot(slots[i], 0);
        assert(shows(rows[k], slots[i]@, now, weights));
    }
    assert forall|k: int, l: int|
        #![trigger rows[k], rows[l]]
        0 <= k < l < rows.len() implies (rows[l].held_since matches Some(later) ==> (
    rows[k].held_since matches Some(earlier) && earlier >= later)) by {
        assert(shows(rows[k], sorted[k]@, now, weights));
        assert(shows(rows[l], sorted[l]@, now, weights));
        assert(!is_fresher(sorted[l].lock_acquired_at, sorted[k].lock_acquired_at));
    }
}

/// Rows shown later show higher scores: wherever the duration has a weight and the
/// hold time has outgrown every baseline, each row of a lock with a known start
/// scores strictly higher than the same row did before.
pub proof fn law_row_scores_rise_with_the_clock(
    table: BlockerTable,
    rows: Seq<StateRow>,
    now: i64,
    later_rows: Seq<StateRow>,
    later: i64,
    weights: Weights,
    k: int,
    started: i64,
)
    requires
        table.wf(),
        rows.len() == freshest_first(
            table.slots@.filter(|slot: BlockerState| slot.in_use),
        ).len(),
        forall|k: int|
            0 <= k < rows.len() ==> shows(
                #[trigger] rows[k],
                freshest_first(table.slots@.filter(|slot: BlockerState| slot.in_use))[k]@,
                now,
                weights,
            ),
        later_rows.len() == freshest_first(
            table.slots@.filter(|slot: BlockerState| slot.in_use),
        ).len(),
        forall|k: int|
            0 <= k < later_rows.len() ==> shows(
                #[trigger] later_rows[k],
                freshest_first(table.slots@.filter(|slot: BlockerState| slot.in_use))[k]@,
                later,
                weights,
            ),
        now < later,
        weights.duration.digits > 0,
        0 <= k < rows.len(),
        rows[k].held_since == Some(started),
        later - started > 100_000,
        forall|i: int|
            0 <= i < table.slots@.len() ==> (#[trigger] table.slots@[i]).baseline_hold_micros
                < later - started,
    ensures
        later_rows.len() == rows.len(),
        later_rows[k].blocking_pid == rows[k].blocking_pid,
        rows[k].risk_score.value() < later_rows[k].risk_score.value(),
{
    broadcast use vstd::seq_lib::group_to_multiset_ensures;

    let slots = table.slots@;
    let p = |slot: BlockerState| slot.in_use;
    let used = slots.filter(p);
    let sorted = freshest_first(used);
    law_freshest_first_is_sorted(used);
    assert(shows(rows[k], sorted[k]@, now, weights));
    assert(shows(later_rows[k], sorted[k]@, later, weights));
    assert(sorted.contains(sorted[k]));
    assert(used.contains(sorted[k])) by {
        assert(sorted.to_multiset().count(sorted[k]) > 0);
    }
    slots.lemma_filter_contains_rev(p, sorted[k]);
    let i = choose|i: int| 0 <= i < slots.len() && slots[i] == sorted[k];
    assert(table.slots@[i].baseline_hold_micros < later - started);
    crate::scoring::law_longer_hold_scores_higher(slots[i]@, started, now, later, weights);
}

/// Locks that were taken at the same time, or whose start is not known, are shown in
/// the order of their slots.
pub proof fn law_equally_fresh_keep_their_order(blockers: Seq<BlockerState>, start: Option<i64>)
    ensures
        freshest_first(blockers).filter(|b: BlockerState| b.lock_acquired_at == start)
            == blockers.filter(|b: BlockerState| b.lock_acquired_at == start),
    decreases blockers.len(),
{
    let p = |b: BlockerState| b.lock_acquired_at == start;
    if blockers.len() == 0 {
        assert(freshest_first(blockers) =~= blockers);
    } else {
        let rest = blockers.drop_last();
        let last = blockers.last();
        law_equally_fresh_keep_their_order(rest, start);
        law_freshest_first_is_sorted(rest);
        let sorted = freshest_first(rest);
        let k = lemma_place(sorted, last, 0);
        lemma_inserted_at(sorted, last, k);
        let (head, tail) = (sorted.take(k), sorted.skip(k));
        assert(sorted =~= head + tail);
        assert(sorted.insert(k, last) =~= (head + seq![last]) + tail);
        Seq::filter_distributes_over_add(head, tail, p);
        Seq::filter_distributes_over_add(head + seq![last], tail, p);
        Seq::filter_distributes_over_add(head, seq![last], p);
        assert(blockers =~= rest + seq![last]);
        Seq::filter_distributes_over_add(rest, seq![last], p);
        lemma_filter_one(last, p);
        if p(last) {
            assert forall|j: int| 0 <= j < tail.len() implies !p(#[trigger] tail[j]) by {
                assert(tail[j] == sorted[k + j]);
                if j > 0 {
                    assert(!is_fresher(sorted[k + j].lock_acquired_at, sorted[k].lock_acquired_at));
                }
            }
            lemma_filter_none(tail, p);
            assert(head.filter(p) + seq![last] + tail.filter(p) =~= head.filter(p) + tail.filter(p)
                + seq![last]);
        } else {
            assert(head.filter(p) + Seq::<BlockerState>::empty() =~= head.filter(p));
            assert(rest.filter(p) + Seq::<BlockerState>::empty() =~= rest.filter(p));
        }
    }
}

proof fn lemma_filter_one(b: BlockerState, p: spec_fn(BlockerState) -> bool)
    ensures
        seq![b].filter(p) == if p(b) {
            seq![b]
        } else {
            Seq::empty()
        },
{
    reveal(Seq::filter);
    assert(seq![b].drop_last() =~= Seq::empty());
    assert(Seq::<BlockerState>::empty().filter(p) =~= Seq::empty());
    assert(seq![b].filter(p) =~= if p(b) {
        seq![b]
    } else {
        Seq::empty()
    });
}

proof fn lemma_filter_none(blockers: Seq<BlockerState>, p: spec_fn(BlockerState) -> bool)
    requires
        forall|j: int| 0 <= j < blockers.len() ==> !p(#[trigger] blockers[j]),
    ensures
        blockers.filter(p) == Seq::<BlockerState>::empty(),
    decreases blockers.len(),
{
    reveal(Seq::filter);
    if blockers.len() > 0 {
        let rest = blockers.drop_last();
        assert forall|j: int| 0 <= j < rest.len() implies !p(#[trigger] rest[j]) by {
            assert(rest[j] == blockers[j]);
        }
        lemma_filter_none(rest, p);
        assert(!p(blockers[blockers.len() - 1]));
    }
}

} // verus!
