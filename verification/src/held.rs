//! Relation and tuple locks held by each backend, reduced to one representative
//! lock per backend.

use crate::blocker::INVALID_OID;
use crate::lock_mode::LockMode;
use std::collections::HashMap;
use vstd::prelude::*;

verus! {

broadcast use vstd::std_specs::hash::group_hash_axioms;

/// One row of the held-locks query. What is `None` was null.
pub struct HeldLockRow {
    pub pid: Option<i32>,
    pub relation_oid: Option<u32>,
    pub lock_mode: Option<String>,
    pub held_since: Option<i64>,
    pub blocking_query: Option<String>,
}

/// The lock that stands for a backend, and what the backend runs.
pub struct BlockerMeta {
    pub relation_oid: u32,
    pub lock_mode: LockMode,
    pub held_since: Option<i64>,
    pub blocking_query: Option<String>,
}

/// The model of the lock that stands for a backend.
#[verifier::ext_equal]
pub struct MetaModel {
    pub relation_oid: u32,
    pub lock_mode: LockMode,
    pub held_since: Option<i64>,
    pub blocking_query: Option<Seq<char>>,
}

/// The text of a string that may be missing.
pub open spec fn text_of(s: Option<String>) -> Option<Seq<char>> {
    match s {
        Some(s) => Some(s@),
        None => None,
    }
}

impl View for BlockerMeta {
    type V = MetaModel;

    open spec fn view(&self) -> MetaModel {
        MetaModel {
            relation_oid: self.relation_oid,
            lock_mode: self.lock_mode,
            held_since: self.held_since,
            blocking_query: text_of(self.blocking_query),
        }
    }
}

impl HeldLockRow {
    /// The pid of the row, zero where there is none.
    pub open spec fn holder(self) -> i32 {
        match self.pid {
            Some(pid) => pid,
            None => 0,
        }
    }

    /// What the row says of its holder. A missing relation counts as no relation,
    /// and a missing mode as a mode without a name.
    pub open spec fn meta(self) -> MetaModel {
        MetaModel {
            relation_oid: match self.relation_oid {
                Some(oid) => oid,
                None => INVALID_OID,
            },
            lock_mode: LockMode::named(
                match self.lock_mode {
                    Some(name) => name@,
                    None => Seq::empty(),
                },
            ),
            held_since: self.held_since,
            blocking_query: text_of(self.blocking_query),
        }
    }

    /// The severity of the lock of the row, in hundredths.
    pub open spec fn severity(self) -> int {
        self.meta().lock_mode.severity_percent()
    }
}

/// Row `i` is the representative lock of `pid`: the most severe one, and of
/// equally severe ones the first.
pub open spec fn is_representative(rows: Seq<HeldLockRow>, pid: i32, i: int) -> bool {
    &&& 0 <= i < rows.len()
    &&& pid != 0
    &&& rows[i].holder() == pid
    &&& forall|j: int|
        0 <= j < rows.len() && (#[trigger] rows[j]).holder() == pid ==> rows[j].severity()
            <= rows[i].severity()
    &&& forall|j: int|
        0 <= j < i && (#[trigger] rows[j]).holder() == pid ==> rows[j].severity()
            < rows[i].severity()
}

/// Whether a row names `pid` as a holder.
pub open spec fn holds(rows: Seq<HeldLockRow>, pid: i32) -> bool {
    pid != 0 && exists|i: int| 0 <= i < rows.len() && (#[trigger] rows[i]).holder() == pid
}

/// `held` maps each pid that holds a lock to its representative lock.
pub open spec fn held_of(rows: Seq<HeldLockRow>, held: Map<i32, MetaModel>) -> bool {
    &&& forall|pid: i32| #[trigger] held.contains_key(pid) <==> holds(rows, pid)
    &&& forall|pid: i32| #[trigger]
        held.contains_key(pid) ==> exists|i: int| #[trigger]
            is_representative(rows, pid, i) && held[pid] == rows[i].meta()
}

/// The model of a map of representative locks.
pub open spec fn meta_map(held: Map<i32, BlockerMeta>) -> Map<i32, MetaModel> {
    held.map_values(|meta: BlockerMeta| meta@)
}

fn copy_text(s: &Option<String>) -> (r: Option<String>)
    ensures
        text_of(r) == text_of(*s),
{
    match s {
        Some(s) => Some(s.clone()),
        None => None,
    }
}

/// Whether the row takes the place of what is held so far: it names a pid, and the
/// pid has no lock yet or a less severe one.
pub open spec fn outranks(held: Map<i32, MetaModel>, row: HeldLockRow) -> bool {
    &&& row.holder() != 0
    &&& !held.contains_key(row.holder()) || row.severity()
        > held[row.holder()].lock_mode.severity_percent()
}

/// The representative locks after one more row.
pub open spec fn noted(held: Map<i32, MetaModel>, row: HeldLockRow) -> Map<i32, MetaModel> {
    if outranks(held, row) {
        held.insert(row.holder(), row.meta())
    } else {
        held
    }
}

/// The representative locks after all rows, in order.
pub open spec fn all_noted(rows: Seq<HeldLockRow>) -> Map<i32, MetaModel>
    decreases rows.len(),
{
    if rows.len() == 0 {
        Map::empty()
    } else {
        noted(all_noted(rows.drop_last()), rows.last())
    }
}

fn holder_of(row: &HeldLockRow) -> (r: i32)
    ensures
        r == row.holder(),
{
    match row.pid {
        Some(pid) => pid,
        None => 0,
    }
}

fn mode_of(row: &HeldLockRow) -> (r: LockMode)
    ensures
        r == row.meta().lock_mode,
{
    match &row.lock_mode {
        Some(name) => LockMode::from_pg_str(name.as_str()),
        None => {
            proof {
                reveal_strlit("");
                assert(""@ =~= Seq::<char>::empty());
            }
            LockMode::from_pg_str("")
        },
    }
}

/// Whether the row would become the representative lock of its pid. Only the pid
/// and the mode of the row decide, so the rest need not be known yet.
pub fn is_more_severe(held: &HashMap<i32, BlockerMeta>, row: &HeldLockRow) -> (r: bool)
    ensures
        r == outranks(meta_map(held@), *row),
{
    let pid: i32 = holder_of(row);
    if pid == 0 {
        return false;
    }
    match held.get(&pid) {
        None => true,
        Some(existing) => mode_of(row).severity().num > existing.lock_mode.severity().num,
    }
}

/// Takes one more row into account.
pub fn note_lock(held: &mut HashMap<i32, BlockerMeta>, row: &HeldLockRow)
    ensures
        meta_map(final(held)@) == noted(meta_map(old(held)@), *row),
{
    if is_more_severe(held, row) {
        let meta = BlockerMeta {
            relation_oid: match row.relation_oid {
                Some(oid) => oid,
                None => INVALID_OID,
            },
            lock_mode: mode_of(row),
            held_since: row.held_since,
            blocking_query: copy_text(&row.blocking_query),
        };
        assert(meta@ =~= row.meta());
        held.insert(holder_of(row), meta);
        assert(meta_map(held@) =~= meta_map(old(held)@).insert(row.holder(), row.meta()));
    }
}

/// A session can hold several relation and tuple locks at once. Keeps the most
/// severe one as the representative lock for scoring.
pub fn most_severe_locks(rows: &[HeldLockRow]) -> (r: HashMap<i32, BlockerMeta>)
    ensures
        held_of(rows@, meta_map(r@)),
        meta_map(r@) == all_noted(rows@),
{
    let mut held: HashMap<i32, BlockerMeta> = HashMap::new();
    assert(meta_map(held@) =~= Map::empty());
    let mut i: usize = 0;
    while i < rows.len()
        invariant
            i <= rows@.len(),
            meta_map(held@) == all_noted(rows@.take(i as int)),
        decreases rows@.len() - i,
    {
        assert(rows@.take(i + 1).drop_last() =~= rows@.take(i as int));
        note_lock(&mut held, &rows[i]);
        i = i + 1;
    }
    assert(rows@.take(i as int) =~= rows@);
    proof {
        law_noting_keeps_the_most_severe(rows@);
    }
    held
}

/// Taking the rows into account one after the other leaves each pid its most severe
/// lock, and of equally severe ones the first.
pub proof fn law_noting_keeps_the_most_severe(rows: Seq<HeldLockRow>)
    ensures
        held_of(rows, all_noted(rows)),
    decreases rows.len(),
{
    if rows.len() > 0 {
        let rest = rows.drop_last();
        law_noting_keeps_the_most_severe(rest);
        assert(rows.take(rows.len() - 1) =~= rest);
        assert(rows.take(rows.len() as int) =~= rows);
        lemma_one_more_row(rows, rows.len() - 1, all_noted(rest), all_noted(rows));
    }
}

/// Whether a row takes the place of what is held rests on its pid and its mode
/// alone, and a row that does not changes nothing, whatever else it holds.
pub proof fn law_lesser_rows_need_no_details(
    held: Map<i32, MetaModel>,
    row: HeldLockRow,
    other: HeldLockRow,
)
    requires
        row.pid == other.pid,
        text_of(row.lock_mode) == text_of(other.lock_mode),
    ensures
        outranks(held, row) == outranks(held, other),
        !outranks(held, row) ==> noted(held, other) == held,
{
}

/// What one more row does to the representative locks.
proof fn lemma_one_more_row(
    rows: Seq<HeldLockRow>,
    i: int,
    held: Map<i32, MetaModel>,
    next: Map<i32, MetaModel>,
)
    requires
        0 <= i < rows.len(),
        held_of(rows.take(i), held),
        next == noted(held, rows[i]),
    ensures
        held_of(rows.take(i + 1), next),
{
    let before = rows.take(i);
    let after = rows.take(i + 1);
    let pid = rows[i].holder();
    assert forall|p: i32| #[trigger] next.contains_key(p) <==> holds(after, p) by {
        if holds(before, p) {
            let j = choose|j: int| 0 <= j < before.len() && (#[trigger] before[j]).holder() == p;
            assert(after[j].holder() == p);
        }
        if holds(after, p) {
            let j = choose|j: int| 0 <= j < after.len() && (#[trigger] after[j]).holder() == p;
            if j < i {
                assert(before[j].holder() == p);
            }
        }
        if p == pid && pid != 0 {
            assert(after[i].holder() == pid);
        }
        assert(held.contains_key(p) <==> holds(before, p));
    }
    assert forall|p: i32| #[trigger] next.contains_key(p) implies exists|k: int| #[trigger]
        is_representative(after, p, k) && next[p] == after[k].meta() by {
        if held.contains_key(p) && next[p] == held[p] && (p != pid || rows[i].severity()
            <= held[p].lock_mode.severity_percent()) {
            let k = choose|k: int| #[trigger]
                is_representative(before, p, k) && held[p] == before[k].meta();
            assert forall|j: int| 0 <= j < after.len() && (#[trigger] after[j]).holder() == p implies
                after[j].severity() <= after[k].severity() by {
                if j < i {
                    assert(before[j].holder() == p);
                }
            }
            assert forall|j: int| 0 <= j < k && (#[trigger] after[j]).holder() == p implies
                after[j].severity() < after[k].severity() by {
                assert(before[j].holder() == p);
            }
            assert(is_representative(after, p, k));
        } else {
            assert(p == pid);
            if held.contains_key(p) {
                let k = choose|k: int| #[trigger]
                    is_representative(before, p, k) && held[p] == before[k].meta();
                assert forall|j: int| 0 <= j < i && (#[trigger] after[j]).holder() == p implies
                    after[j].severity() < after[i].severity() by {
                    assert(before[j].holder() == p);
                }
            } else {
                assert forall|j: int| 0 <= j < i && (#[trigger] after[j]).holder() == p implies
                    after[j].severity() < after[i].severity() by {
                    assert(before[j].holder() == p);
                    assert(holds(before, p));
                }
            }
            assert(is_representative(after, p, i));
        }
    }
}

/// The representative locks, stated over the columns of the rows: every pid but zero
/// that a row names has one; it is taken from a row of that pid with all its
/// columns, no row of the pid is more severe, and none of the rows before it is as
/// severe.
pub proof fn law_representative_locks(rows: Seq<HeldLockRow>, held: Map<i32, MetaModel>)
    requires
        held_of(rows, held),
    ensures
        forall|i: int|
            #![trigger rows[i]]
            0 <= i < rows.len() ==> (rows[i].pid matches Some(pid) ==> (pid != 0 ==> {
                &&& held.contains_key(pid)
                &&& rows[i].lock_mode matches Some(name) ==> held[pid].lock_mode.severity_percent()
                    >= LockMode::named(name@).severity_percent()
                &&& rows[i].lock_mode is None ==> held[pid].lock_mode.severity_percent() >= 25
            })),
        forall|pid: i32| #[trigger]
            held.contains_key(pid) ==> pid != 0 && exists|i: int|
                {
                    &&& 0 <= i < rows.len()
                    &&& (#[trigger] rows[i]).pid == Some(pid)
                    &&& rows[i].relation_oid matches Some(oid) ==> held[pid].relation_oid == oid
                    &&& rows[i].relation_oid is None ==> held[pid].relation_oid == 0
                    &&& rows[i].lock_mode matches Some(name) ==> held[pid].lock_mode
                        == LockMode::named(name@)
                    &&& rows[i].lock_mode is None ==> held[pid].lock_mode
                        == LockMode::RowExclusive
                    &&& held[pid].held_since == rows[i].held_since
                    &&& rows[i].blocking_query matches Some(query) ==> held[pid].blocking_query
                        == Some(query@)
                    &&& rows[i].blocking_query is None ==> held[pid].blocking_query is None
                    &&& forall|j: int|
                        0 <= j < i && (#[trigger] rows[j]).pid == Some(pid) ==> (
                        rows[j].lock_mode matches Some(name) ==> LockMode::named(
                            name@,
                        ).severity_percent() < held[pid].lock_mode.severity_percent()) && (
                        rows[j].lock_mode is None ==> 25
                            < held[pid].lock_mode.severity_percent())
                },
{
    crate::lock_mode::law_modes_are_found_by_name(Seq::empty());
    lemma_no_name();
    crate::lock_mode::law_severities(LockMode::RowExclusive);
    assert forall|i: int|
        #![trigger rows[i]]
        0 <= i < rows.len() implies (rows[i].pid matches Some(pid) ==> (pid != 0 ==> {
        &&& held.contains_key(pid)
        &&& rows[i].lock_mode matches Some(name) ==> held[pid].lock_mode.severity_percent()
            >= LockMode::named(name@).severity_percent()
        &&& rows[i].lock_mode is None ==> held[pid].lock_mode.severity_percent() >= 25
    })) by {
        if let Some(pid) = rows[i].pid {
            if pid != 0 {
                assert(rows[i].holder() == pid);
                assert(holds(rows, pid));
                assert(held.contains_key(pid));
                let k = choose|k: int| #[trigger]
                    is_representative(rows, pid, k) && held[pid] == rows[k].meta();
                assert(rows[i].severity() <= rows[k].severity());
            }
        }
    }
    assert forall|pid: i32| #[trigger] held.contains_key(pid) implies pid != 0 && exists|i: int|
        {
            &&& 0 <= i < rows.len()
            &&& (#[trigger] rows[i]).pid == Some(pid)
            &&& rows[i].relation_oid matches Some(oid) ==> held[pid].relation_oid == oid
            &&& rows[i].relation_oid is None ==> held[pid].relation_oid == 0
            &&& rows[i].lock_mode matches Some(name) ==> held[pid].lock_mode == LockMode::named(
                name@,
            )
            &&& rows[i].lock_mode is None ==> held[pid].lock_mode == LockMode::RowExclusive
            &&& held[pid].held_since == rows[i].held_since
            &&& rows[i].blocking_query matches Some(query) ==> held[pid].blocking_query == Some(
                query@,
            )
            &&& rows[i].blocking_query is None ==> held[pid].blocking_query is None
            &&& forall|j: int|
                0 <= j < i && (#[trigger] rows[j]).pid == Some(pid) ==> (
                rows[j].lock_mode matches Some(name) ==> LockMode::named(name@).severity_percent()
                    < held[pid].lock_mode.severity_percent()) && (rows[j].lock_mode is None ==> 25
                    < held[pid].lock_mode.severity_percent())
        } by {
        let i = choose|i: int| #[trigger]
            is_representative(rows, pid, i) && held[pid] == rows[i].meta();
        assert(rows[i].pid == Some(pid));
        assert forall|j: int| 0 <= j < i && (#[trigger] rows[j]).pid == Some(pid) implies (
        rows[j].lock_mode matches Some(name) ==> LockMode::named(name@).severity_percent()
            < held[pid].lock_mode.severity_percent()) && (rows[j].lock_mode is None ==> 25
            < held[pid].lock_mode.severity_percent()) by {
            assert(rows[j].holder() == pid);
            assert(rows[j].severity() < rows[i].severity());
        }
    }
}

/// Nothing is listed under the empty name.
proof fn lemma_no_name()
    ensures
        LockMode::named(Seq::empty()) == LockMode::RowExclusive,
{
    reveal_strlit("AccessShareLock");
    reveal_strlit("RowShareLock");
    reveal_strlit("RowExclusiveLock");
    reveal_strlit("ShareUpdateExclusiveLock");
    reveal_strlit("ShareLock");
    reveal_strlit("ShareRowExclusiveLock");
    reveal_strlit("ExclusiveLock");
    reveal_strlit("AccessExclusiveLock");
    assert forall|mode: LockMode| #[trigger] mode.pg_name() != Seq::<char>::empty() by {
        assert(mode.pg_name().len() > 0);
    }
}

/// A row takes the place of what is held exactly if it names a pid other than zero
/// whose lock is not known yet or is less severe; it then brings its own columns,
/// and no other pid is touched.
pub proof fn law_a_more_severe_row_takes_the_place(
    held: Map<i32, MetaModel>,
    row: HeldLockRow,
    other: i32,
)
    ensures
        row.pid is None ==> !outranks(held, row),
        row.pid == Some(0i32) ==> !outranks(held, row),
        row.pid matches Some(pid) ==> (pid != 0 && !held.contains_key(pid) ==> outranks(held, row)),
        row.pid matches Some(pid) ==> (pid != 0 && held.contains_key(pid) ==> (
        row.lock_mode matches Some(name) ==> (outranks(held, row) <==> LockMode::named(
            name@,
        ).severity_percent() > held[pid].lock_mode.severity_percent()))),
        row.pid matches Some(pid) ==> (pid != 0 && held.contains_key(pid) && row.lock_mode is None
            ==> (outranks(held, row) <==> 25 > held[pid].lock_mode.severity_percent())),
        !outranks(held, row) ==> noted(held, row) == held,
        outranks(held, row) ==> (row.pid matches Some(pid) && {
            let lock = noted(held, row)[pid];
            &&& noted(held, row).contains_key(pid)
            &&& row.relation_oid matches Some(oid) ==> lock.relation_oid == oid
            &&& row.relation_oid is None ==> lock.relation_oid == 0
            &&& row.lock_mode matches Some(name) ==> lock.lock_mode == LockMode::named(name@)
            &&& row.lock_mode is None ==> lock.lock_mode == LockMode::RowExclusive
            &&& lock.held_since == row.held_since
            &&& row.blocking_query matches Some(query) ==> lock.blocking_query == Some(query@)
            &&& row.blocking_query is None ==> lock.blocking_query is None
        }),
        row.pid != Some(other) ==> noted(held, row).contains_key(other) == held.contains_key(other)
            && (held.contains_key(other) ==> noted(held, row)[other] == held[other]),
{
    lemma_no_name();
    crate::lock_mode::law_severities(LockMode::RowExclusive);
}

} // verus!
