//! The wait-for graph of one sample.

use crate::chain::{
    at_or_behind, climbs, connects, is_cascade_depth, is_longest_rise, is_rising, is_root,
    lemma_less_behind, lemma_longest_rise_is_depth, lemma_rise_beyond, lemma_rise_by_one,
    lemma_rise_splits, lemma_rising_len, linked, reaches, rises_from, waiters_behind, waits_on,
};
use crate::pids::contains_pid;
use std::collections::{HashMap, HashSet};
use vstd::prelude::*;

verus! {

broadcast use vstd::std_specs::hash::group_hash_axioms;

/// One row of the wait-graph query: a waiting backend and the pids that block it
/// directly. What is `None` was null.
pub struct WaitRow {
    pub pid: Option<i32>,
    pub blockers: Option<Vec<i32>>,
}

impl WaitRow {
    /// The pid of the row, zero where there is none.
    pub open spec fn waiter(self) -> i32 {
        match self.pid {
            Some(pid) => pid,
            None => 0,
        }
    }

    /// The direct blockers of the row.
    pub open spec fn direct_blockers(self) -> Seq<i32> {
        match self.blockers {
            Some(blockers) => blockers@,
            None => Seq::empty(),
        }
    }
}

/// The rows name `pid` as a waiter, last of all in row `i`.
pub open spec fn is_last_row_of(rows: Seq<WaitRow>, pid: i32, i: int) -> bool {
    &&& 0 <= i < rows.len()
    &&& pid != 0
    &&& rows[i].waiter() == pid
    &&& forall|j: int| i < j < rows.len() ==> (#[trigger] rows[j]).waiter() != pid
}

/// `graph` is what the rows say: rows without a pid count for nothing, and of two
/// rows for one pid the later one counts.
pub open spec fn graph_of(rows: Seq<WaitRow>, graph: Map<i32, Seq<i32>>) -> bool {
    &&& forall|pid: i32| #[trigger]
        graph.contains_key(pid) <==> exists|i: int| is_last_row_of(rows, pid, i)
    &&& forall|pid: i32, i: int| #[trigger]
        is_last_row_of(rows, pid, i) ==> graph[pid] == rows[i].direct_blockers()
}

/// Direct wait-for edges, from each waiter to its immediate blockers.
pub struct WaitGraph {
    waiters: Vec<i32>,
    edges: HashMap<i32, Vec<i32>>,
}

impl View for WaitGraph {
    type V = Map<i32, Seq<i32>>;

    closed spec fn view(&self) -> Map<i32, Seq<i32>> {
        self.edges@.map_values(|blockers: Vec<i32>| blockers@)
    }
}

/// The pids that occur in the graph as one of `waiters` or as their blockers.
spec fn pids_around(graph: Map<i32, Seq<i32>>, waiters: Seq<i32>) -> Set<i32>
    decreases waiters.len(),
{
    if waiters.len() == 0 {
        Set::empty()
    } else {
        pids_around(graph, waiters.drop_last()).union(graph[waiters.last()].to_set()).insert(
            waiters.last(),
        )
    }
}

proof fn lemma_pids_around(graph: Map<i32, Seq<i32>>, waiters: Seq<i32>)
    ensures
        pids_around(graph, waiters).finite(),
        forall|a: i32, b: i32|
            waiters.contains(a) && #[trigger] waits_on(graph, a, b) ==> pids_around(
                graph,
                waiters,
            ).contains(b),
    decreases waiters.len(),
{
    if waiters.len() > 0 {
        let rest = waiters.drop_last();
        lemma_pids_around(graph, rest);
        assert forall|a: i32, b: i32|
            waiters.contains(a) && #[trigger] waits_on(graph, a, b) implies pids_around(
            graph,
            waiters,
        ).contains(b) by {
            if a != waiters.last() {
                let k = choose|k: int| 0 <= k < waiters.len() && waiters[k] == a;
                assert(rest[k] == a);
                assert(rest.contains(a));
            } else {
                assert(graph[a].to_set().contains(b));
            }
        }
    }
}

/// Adding a pid that is not there yet.
proof fn lemma_push_new(pids: Seq<i32>, pid: i32)
    requires
        pids.no_duplicates(),
        !pids.contains(pid),
    ensures
        pids.push(pid).no_duplicates(),
        forall|other: i32| #[trigger]
            pids.push(pid).contains(other) <==> (pids.contains(other) || other == pid),
{
    let more = pids.push(pid);
    assert forall|i: int, j: int|
        0 <= i < more.len() && 0 <= j < more.len() && i != j implies more[i] != more[j] by {
        if i == pids.len() {
            assert(pids.contains(pids[j]));
        }
        if j == pids.len() {
            assert(pids.contains(pids[i]));
        }
    }
    assert forall|other: i32| #[trigger]
        more.contains(other) <==> (pids.contains(other) || other == pid) by {
        vstd::seq_lib::lemma_seq_contains_after_push(pids, pid, other);
    }
}

/// A list of distinct members of a finite set is no longer than the set.
proof fn lemma_distinct_within(pids: Seq<i32>, all: Set<i32>)
    requires
        pids.no_duplicates(),
        all.finite(),
        forall|k: int| 0 <= k < pids.len() ==> all.contains(#[trigger] pids[k]),
    ensures
        pids.len() <= all.len(),
{
    pids.unique_seq_to_set();
    assert(pids.to_set().subset_of(all));
    vstd::set_lib::lemma_len_subset(pids.to_set(), all);
}

/// A root blocker of one sample.
#[derive(Copy, Clone, Debug, PartialEq, Eq, Structural)]
pub struct RootBlocker {
    pub pid: i32,
    /// Number of transitive waiters, at most the largest 16-bit number.
    pub waiter_count: u16,
    /// Longest transitive wait-chain (0 = every waiter is queued directly), at
    /// most the largest 16-bit number.
    pub cascade_depth: u16,
}

/// `n`, or the largest 16-bit number where `n` is larger.
pub open spec fn at_most_u16(n: nat) -> int {
    if n > u16::MAX {
        u16::MAX as int
    } else {
        n as int
    }
}

/// The cascade depth of `root` is `depth`, up to the largest 16-bit number.
pub open spec fn has_depth(graph: Map<i32, Seq<i32>>, root: i32, depth: u16) -> bool {
    exists|n: nat| #[trigger] is_cascade_depth(graph, root, n) && depth == at_most_u16(n)
}

/// `root` is a root blocker and says of it what the graph says.
pub open spec fn describes_root(graph: Map<i32, Seq<i32>>, root: RootBlocker) -> bool {
    &&& is_root(graph, root.pid)
    &&& root.waiter_count == at_most_u16(waiters_behind(graph, root.pid).len())
    &&& has_depth(graph, root.pid, root.cascade_depth)
}

/// `roots` lists exactly the root blockers of the graph, each once.
pub open spec fn are_roots_of(graph: Map<i32, Seq<i32>>, roots: Seq<RootBlocker>) -> bool {
    &&& forall|n: int| 0 <= n < roots.len() ==> describes_root(graph, #[trigger] roots[n])
    &&& forall|m: int, n: int|
        0 <= m < n < roots.len() ==> (#[trigger] roots[m]).pid != (#[trigger] roots[n]).pid
    &&& forall|pid: i32| #[trigger]
        is_root(graph, pid) ==> exists|n: int|
            0 <= n < roots.len() && (#[trigger] roots[n]).pid == pid
}

/// Those of `seen` that wait on `pid`.
spec fn seen_behind(graph: Map<i32, Seq<i32>>, seen: Seq<i32>, pid: i32) -> Set<i32> {
    seen.to_set().filter(|waiter: i32| reaches(graph, waiter, pid))
}

proof fn lemma_seen_bound(graph: Map<i32, Seq<i32>>, seen: Seq<i32>, pid: i32)
    ensures
        seen_behind(graph, seen, pid).finite(),
        seen_behind(graph, seen, pid).len() <= seen.len(),
{
    seen.lemma_cardinality_of_set();
    vstd::seq_lib::seq_to_set_is_finite(seen);
    vstd::set_lib::lemma_len_subset(seen_behind(graph, seen, pid), seen.to_set());
}

/// One more waiter seen adds itself to what it waits on.
proof fn lemma_seen_grows(graph: Map<i32, Seq<i32>>, seen: Seq<i32>, waiter: i32)
    requires
        seen.push(waiter).no_duplicates(),
    ensures
        forall|pid: i32|
            #![trigger seen_behind(graph, seen.push(waiter), pid)]
            seen_behind(graph, seen.push(waiter), pid).len() == seen_behind(graph, seen, pid).len()
                + (if reaches(graph, waiter, pid) {
                1int
            } else {
                0
            }),
        forall|pid: i32|
            (forall|k: int| 0 <= k < seen.len() ==> !reaches(graph, #[trigger] seen[k], pid))
                ==> #[trigger] seen_behind(graph, seen, pid).len() == 0,
{
    let more = seen.push(waiter);
    assert(!seen.contains(waiter)) by {
        if seen.contains(waiter) {
            let k = choose|k: int| 0 <= k < seen.len() && seen[k] == waiter;
            assert(more[k] == more[seen.len() as int]);
        }
    }
    assert(more.to_set() =~= seen.to_set().insert(waiter)) by {
        seen.lemma_push_to_set_commute(waiter);
    }
    assert forall|pid: i32|
        #![trigger seen_behind(graph, seen.push(waiter), pid)]
        seen_behind(graph, seen.push(waiter), pid).len() == seen_behind(graph, seen, pid).len() + (
        if reaches(graph, waiter, pid) {
            1int
        } else {
            0
        }) by {
        lemma_seen_bound(graph, seen, pid);
        if reaches(graph, waiter, pid) {
            assert(seen_behind(graph, more, pid) =~= seen_behind(graph, seen, pid).insert(waiter));
        } else {
            assert(seen_behind(graph, more, pid) =~= seen_behind(graph, seen, pid));
        }
    }
    assert forall|pid: i32|
        (forall|k: int| 0 <= k < seen.len() ==> !reaches(graph, #[trigger] seen[k], pid))
            implies #[trigger] seen_behind(graph, seen, pid).len() == 0 by {
        assert(seen_behind(graph, seen, pid) =~= Set::empty());
    }
}

/// A chain that rises from a root blocker can hold a waiter.
proof fn lemma_root_has_waiter(graph: Map<i32, Seq<i32>>, root: i32, len: nat)
    requires
        is_root(graph, root),
        is_longest_rise(graph, seq![root], len),
    ensures
        len >= 2,
{
    let waiter = choose|waiter: i32|
        graph.contains_key(waiter) && #[trigger] reaches(graph, waiter, root);
    let chain = choose|chain: Seq<i32>| #[trigger] connects(graph, chain, waiter, root);
    let k = chain.len() - 2;
    assert(linked(graph, chain, k));
    let up = seq![root, chain[k]];
    assert(climbs(graph, up, 0));
    assert(up.take(1) =~= seq![root]);
    assert(rises_from(graph, up, seq![root]));
}

impl WaitGraph {
    /// The list of waiters names each waiter of the edges once.
    pub closed spec fn wf(self) -> bool {
        &&& self.waiters@.no_duplicates()
        &&& forall|pid: i32| #[trigger]
            self.waiters@.contains(pid) <==> self.edges@.contains_key(pid)
        &&& self.waiters@.len() < usize::MAX
    }

    /// Collects the rows of the wait-graph query.
    pub fn from_rows(rows: &[WaitRow]) -> (r: Self)
        requires
            rows@.len() < usize::MAX,
        ensures
            r.wf(),
            graph_of(rows@, r@),
            forall|i: int|
                #![trigger rows@[i]]
                0 <= i < rows@.len() ==> (rows@[i].pid matches Some(pid) ==> (pid != 0
                    ==> r@.contains_key(pid))),
            forall|pid: i32| #[trigger]
                r@.contains_key(pid) ==> pid != 0 && exists|i: int|
                    0 <= i < rows@.len() && (#[trigger] rows@[i]).pid == Some(pid),
    {
        let mut waiters: Vec<i32> = Vec::new();
        let mut edges: HashMap<i32, Vec<i32>> = HashMap::new();
        let mut i: usize = 0;
        while i < rows.len()
            invariant
                i <= rows@.len() < usize::MAX,
                waiters@.no_duplicates(),
                waiters@.len() <= i,
                forall|pid: i32| #[trigger]
                    waiters@.contains(pid) <==> edges@.contains_key(pid),
                forall|pid: i32| #[trigger]
                    edges@.contains_key(pid) <==> exists|k: int|
                        is_last_row_of(rows@.take(i as int), pid, k),
                forall|pid: i32, k: int| #[trigger]
                    is_last_row_of(rows@.take(i as int), pid, k) ==> edges@[pid]@
                        == rows@[k].direct_blockers(),
            decreases rows@.len() - i,
        {
            let pid: i32 = match rows[i].pid {
                Some(pid) => pid,
                None => 0,
            };
            let ghost before = rows@.take(i as int);
            let ghost after = rows@.take(i + 1);
            let ghost old_edges = edges@;
            if pid != 0 {
                let blockers: Vec<i32> = match &rows[i].blockers {
                    Some(blockers) => blockers.clone(),
                    None => Vec::new(),
                };
                assert(blockers@ =~= rows@[i as int].direct_blockers());
                if !edges.contains_key(&pid) {
                    proof {
                        lemma_push_new(waiters@, pid);
                    }
                    waiters.push(pid);
                }
                edges.insert(pid, blockers);
            }
            proof {
                assert forall|other: i32, k: int|
                    is_last_row_of(after, other, k) implies is_last_row_of(before, other, k) || (k
                    == i && other == pid && pid != 0) by {
                    if k < i {
                        assert forall|j: int| k < j < before.len() implies (
                        #[trigger] before[j]).waiter() != other by {
                            assert(after[j].waiter() != other);
                        }
                    }
                }
                assert forall|other: i32, k: int|
                    is_last_row_of(before, other, k) && other != pid implies is_last_row_of(
                    after,
                    other,
                    k,
                ) by {
                    assert forall|j: int| k < j < after.len() implies (#[trigger] after[j]).waiter()
                        != other by {
                        if j < i {
                            assert(before[j].waiter() != other);
                        }
                    }
                }
                if pid != 0 {
                    assert(is_last_row_of(after, pid, i as int));
                    assert(after[i as int].waiter() == pid);
                }
                assert forall|other: i32| #[trigger]
                    edges@.contains_key(other) <==> exists|k: int|
                        is_last_row_of(after, other, k) by {
                    if edges@.contains_key(other) && other != pid {
                        assert(old_edges.contains_key(other));
                        let k = choose|k: int| is_last_row_of(before, other, k);
                        assert(is_last_row_of(after, other, k));
                    }
                    if exists|k: int| is_last_row_of(after, other, k) {
                        let k = choose|k: int| is_last_row_of(after, other, k);
                        if other != pid || pid == 0 {
                            assert(is_last_row_of(before, other, k));
                            assert(old_edges.contains_key(other));
                        }
                    }
                }
                assert forall|other: i32, k: int| #[trigger]
                    is_last_row_of(after, other, k) implies edges@[other]@
                    == rows@[k].direct_blockers() by {
                    if other == pid {
                        if k < i {
                            assert(after[i as int].waiter() == pid);
                        }
                    } else {
                        assert(is_last_row_of(before, other, k));
                    }
                }
            }
            i = i + 1;
        }
        assert(rows@.take(i as int) =~= rows@);
        let r = WaitGraph { waiters, edges };
        proof {
            law_rows_make_the_graph(rows@, r@);
        }
        r
    }

    proof fn lemma_view(self)
        requires
            self.wf(),
        ensures
            forall|pid: i32| #[trigger] self@.contains_key(pid) == self.edges@.contains_key(pid),
            forall|pid: i32| #[trigger] self@.contains_key(pid) == self.waiters@.contains(pid),
            forall|pid: i32|
                self@.contains_key(pid) ==> #[trigger] self@[pid] == self.edges@[pid]@,
    {
    }

    /// Everything that `waiter` waits on, itself included, each pid once: as a
    /// list, in the order in which it is found, and as a set.
    fn reachable_from(&self, waiter: i32) -> (r: (Vec<i32>, HashSet<i32>))
        requires
            self.wf(),
        ensures
            r.0@.no_duplicates(),
            forall|pid: i32| #[trigger] r.0@.contains(pid) <==> reaches(self@, waiter, pid),
            forall|pid: i32| #[trigger] r.1@.contains(pid) <==> reaches(self@, waiter, pid),
    {
        let mut found: Vec<i32> = Vec::new();
        let mut visited: HashSet<i32> = HashSet::new();
        found.push(waiter);
        visited.insert(waiter);
        let ghost graph = self@;
        let ghost all = pids_around(graph, self.waiters@).insert(waiter);
        proof {
            self.lemma_view();
            lemma_pids_around(graph, self.waiters@);
            crate::chain::lemma_reaches_itself(graph, waiter);
            assert(found@ =~= Seq::<i32>::empty().push(waiter));
            lemma_push_new(Seq::<i32>::empty(), waiter);
        }
        let mut i: usize = 0;
        while i < found.len()
            invariant
                self.wf(),
                graph == self@,
                all == pids_around(graph, self.waiters@).insert(waiter),
                all.finite(),
                i <= found@.len(),
                found@.no_duplicates(),
                found@.contains(waiter),
                forall|pid: i32| #[trigger] found@.contains(pid) <==> visited@.contains(pid),
                forall|k: int| 0 <= k < found@.len() ==> all.contains(#[trigger] found@[k]),
                forall|pid: i32| #[trigger] found@.contains(pid) ==> reaches(graph, waiter, pid),
                forall|k: int, next: i32|
                    0 <= k < i && #[trigger] waits_on(graph, #[trigger] found@[k], next)
                        ==> visited@.contains(next),
            decreases all.len() - i,
        {
            proof {
                self.lemma_view();
                lemma_distinct_within(found@, all);
            }
            let pid: i32 = found[i];
            if let Some(next_hop) = self.edges.get(&pid) {
                let mut j: usize = 0;
                while j < next_hop.len()
                    invariant
                        self.wf(),
                        graph == self@,
                        all == pids_around(graph, self.waiters@).insert(waiter),
                        graph.contains_key(pid),
                        graph[pid] == next_hop@,
                        j <= next_hop@.len(),
                        i < found@.len(),
                        found@[i as int] == pid,
                        found@.no_duplicates(),
                        found@.contains(waiter),
                        forall|p: i32| #[trigger] found@.contains(p) <==> visited@.contains(p),
                        forall|k: int| 0 <= k < found@.len() ==> all.contains(#[trigger] found@[k]),
                        forall|p: i32| #[trigger] found@.contains(p) ==> reaches(graph, waiter, p),
                        forall|k: int, next: i32|
                            0 <= k < i && #[trigger] waits_on(graph, #[trigger] found@[k], next)
                                ==> visited@.contains(next),
                        forall|k: int| 0 <= k < j ==> visited@.contains(#[trigger] next_hop@[k]),
                    decreases next_hop@.len() - j,
                {
                    let next: i32 = next_hop[j];
                    proof {
                        self.lemma_view();
                        lemma_pids_around(graph, self.waiters@);
                        assert(found@.contains(pid));
                        assert(waits_on(graph, pid, next));
                        crate::chain::lemma_reaches_further(graph, waiter, pid, next);
                    }
                    let ghost before = found@;
                    if visited.insert(next) {
                        proof {
                            lemma_push_new(found@, next);
                        }
                        found.push(next);
                    }
                    assert(forall|k: int| 0 <= k < before.len() ==> found@[k] == before[k]);
                    j = j + 1;
                }
                assert forall|next: i32| #[trigger] waits_on(graph, pid, next) implies
                    visited@.contains(next) by {
                    let k = choose|k: int| 0 <= k < next_hop@.len() && next_hop@[k] == next;
                    assert(visited@.contains(next_hop@[k]));
                }
            }
            i = i + 1;
        }
        assert forall|pid: i32| reaches(graph, waiter, pid) implies visited@.contains(pid) by {
            assert forall|a: i32, b: i32|
                visited@.contains(a) && #[trigger] waits_on(graph, a, b) implies visited@.contains(
                b,
            ) by {
                assert(found@.contains(a));
                let k = choose|k: int| 0 <= k < found@.len() && found@[k] == a;
                assert(waits_on(graph, found@[k], b));
            }
            crate::chain::lemma_closed_set(graph, visited@, waiter, pid);
        }
        assert forall|pid: i32| #[trigger] visited@.contains(pid) implies reaches(
            graph,
            waiter,
            pid,
        ) by {
            assert(found@.contains(pid));
        }
        (found, visited)
    }

    /// Whether `waiter` is blocked directly by `blocker`.
    fn is_waiting_on(&self, waiter: i32, blocker: i32) -> (r: bool)
        requires
            self.wf(),
        ensures
            r == waits_on(self@, waiter, blocker),
    {
        proof {
            self.lemma_view();
        }
        match self.edges.get(&waiter) {
            Some(blockers) => contains_pid(blockers.as_slice(), blocker),
            None => false,
        }
    }

    proof fn lemma_waiter_count(self)
        requires
            self.wf(),
        ensures
            self@.dom().finite(),
            self@.dom().len() == self.waiters@.len(),
    {
        self.lemma_view();
        self.waiters@.unique_seq_to_set();
        assert(self.waiters@.to_set() =~= self@.dom());
    }

    /// The number of members of the longest chain that rises from `pid`. What is
    /// known of other pids is read from and added to `known`.
    fn longest_rise(&self, pid: i32, known: &mut HashMap<i32, usize>) -> (r: usize)
        requires
            self.wf(),
            forall|p: i32| #[trigger]
                old(known)@.contains_key(p) ==> is_longest_rise(
                    self@,
                    seq![p],
                    old(known)@[p] as nat,
                ),
        ensures
            is_longest_rise(self@, seq![pid], r as nat),
            forall|p: i32| #[trigger]
                final(known)@.contains_key(p) ==> is_longest_rise(
                    self@,
                    seq![p],
                    final(known)@[p] as nat,
                ),
        decreases at_or_behind(self@, pid).len(), self.waiters@.len() + 2,
    {
        if let Some(len) = known.get(&pid) {
            return *len;
        }
        let mut chain: Vec<i32> = Vec::new();
        chain.push(pid);
        assert(chain@ =~= seq![pid]);
        let len: usize = self.longest_rise_from(&mut chain, known);
        known.insert(pid, len);
        len
    }

    /// The number of members of the longest rising chain that starts with the
    /// members of `chain`. Only waiters that wait on each other are tried in every
    /// order: beyond them the search goes on from a pid alone, once for each.
    fn longest_rise_from(&self, chain: &mut Vec<i32>, known: &mut HashMap<i32, usize>) -> (r: usize)
        requires
            self.wf(),
            is_rising(self@, old(chain)@),
            forall|p: i32| #[trigger]
                old(known)@.contains_key(p) ==> is_longest_rise(
                    self@,
                    seq![p],
                    old(known)@[p] as nat,
                ),
        ensures
            final(chain)@ == old(chain)@,
            is_longest_rise(self@, old(chain)@, r as nat),
            forall|p: i32| #[trigger]
                final(known)@.contains_key(p) ==> is_longest_rise(
                    self@,
                    seq![p],
                    final(known)@[p] as nat,
                ),
        decreases
                at_or_behind(self@, old(chain)@.last()).len(),
                self.waiters@.len() + 2 - old(chain)@.len(),
    {
        let ghost graph = self@;
        let ghost start = chain@;
        let head: i32 = chain[chain.len() - 1];
        let (_, ahead) = self.reachable_from(head);
        let mut best: usize = chain.len();
        proof {
            assert(start.take(start.len() as int) =~= start);
            assert(rises_from(graph, start, start));
        }
        let mut i: usize = 0;
        while i < self.waiters.len()
            invariant
                self.wf(),
                graph == self@,
                start == old(chain)@,
                chain@ == start,
                is_rising(graph, start),
                head == start.last(),
                forall|p: i32| #[trigger] ahead@.contains(p) <==> reaches(graph, head, p),
                i <= self.waiters@.len(),
                exists|c: Seq<i32>| #[trigger] rises_from(graph, c, start) && c.len() == best,
                forall|c: Seq<i32>| #[trigger]
                    rises_from(graph, c, start) && (c.len() > start.len()
                        ==> self.waiters@.take(i as int).contains(c[start.len() as int]))
                        ==> c.len() <= best,
                forall|p: i32| #[trigger]
                    known@.contains_key(p) ==> is_longest_rise(graph, seq![p], known@[p] as nat),
            decreases self.waiters@.len() - i,
        {
            let waiter: i32 = self.waiters[i];
            let ghost seen = self.waiters@.take(i as int);
            let ghost more = self.waiters@.take(i + 1);
            assert(more =~= seen.push(waiter));
            if self.is_waiting_on(waiter, head) && !contains_pid(chain.as_slice(), waiter) {
                proof {
                    self.lemma_waiter_count();
                    lemma_rise_by_one(graph, start, waiter);
                    lemma_rising_len(graph, start.push(waiter));
                    assert(start.contains(head));
                    lemma_less_behind(graph, waiter, head);
                }
                let len: usize = if ahead.contains(&waiter) {
                    chain.push(waiter);
                    let len: usize = self.longest_rise_from(chain, known);
                    chain.pop();
                    assert(chain@ =~= start);
                    len
                } else {
                    let rest: usize = self.longest_rise(waiter, known);
                    proof {
                        lemma_rise_beyond(graph, start, waiter, rest as nat);
                        let c = choose|c: Seq<i32>| #[trigger]
                            rises_from(graph, c, start.push(waiter)) && c.len() == start.len()
                                + rest;
                        lemma_rising_len(graph, c);
                    }
                    chain.len() + rest
                };
                assert(is_longest_rise(graph, start.push(waiter), len as nat));
                if len > best {
                    best = len;
                    proof {
                        let c = choose|c: Seq<i32>| #[trigger]
                            rises_from(graph, c, start.push(waiter)) && c.len() == len;
                        assert(c.take(start.len() as int) =~= start) by {
                            assert(c.take(start.len() as int) =~= c.take(
                                start.len() as int + 1,
                            ).take(start.len() as int));
                            assert(start.push(waiter).take(start.len() as int) =~= start);
                        }
                        assert(rises_from(graph, c, start));
                    }
                }
            }
            assert forall|c: Seq<i32>| #[trigger]
                rises_from(graph, c, start) && (c.len() > start.len() ==> more.contains(
                    c[start.len() as int],
                )) implies c.len() <= best by {
                if c.len() > start.len() {
                    lemma_rise_splits(graph, c, start);
                    let next = c[start.len() as int];
                    if next != waiter {
                        let k = choose|k: int| 0 <= k < more.len() && more[k] == next;
                        assert(seen[k] == next);
                        assert(seen.contains(next));
                    }
                }
            }
            i = i + 1;
        }
        assert forall|c: Seq<i32>| #[trigger] rises_from(graph, c, start) implies c.len() <= best by {
            if c.len() > start.len() {
                lemma_rise_splits(graph, c, start);
                self.lemma_view();
                assert(graph.contains_key(c[start.len() as int]));
                assert(self.waiters@.take(i as int) =~= self.waiters@);
            }
        }
        best
    }

    /// The cascade depth of a root blocker: how many waiters stand ahead of the
    /// first one in the longest wait-chain that hangs off it.
    fn cascade_depth(&self, root: i32, known: &mut HashMap<i32, usize>) -> (r: u16)
        requires
            self.wf(),
            is_root(self@, root),
            forall|p: i32| #[trigger]
                old(known)@.contains_key(p) ==> is_longest_rise(
                    self@,
                    seq![p],
                    old(known)@[p] as nat,
                ),
        ensures
            has_depth(self@, root, r),
            forall|p: i32| #[trigger]
                final(known)@.contains_key(p) ==> is_longest_rise(
                    self@,
                    seq![p],
                    final(known)@[p] as nat,
                ),
    {
        let len: usize = self.longest_rise(root, known);
        proof {
            lemma_root_has_waiter(self@, root, len as nat);
            lemma_longest_rise_is_depth(self@, root, len as nat);
        }
        let depth: usize = len - 2;
        assert(is_cascade_depth(self@, root, depth as nat));
        if depth > u16::MAX as usize {
            u16::MAX
        } else {
            depth as u16
        }
    }

    /// The root blockers, the pids that somebody waits on and that wait on nobody
    /// themselves, each with its transitive waiters and its cascade depth.
    ///
    /// Every waiter is credited to its roots, rather than to whichever pid happens
    /// to be directly ahead of it in the queue.
    pub fn root_blockers(&self) -> (r: Vec<RootBlocker>)
        requires
            self.wf(),
        ensures
            are_roots_of(self@, r@),
    {
        let ghost graph = self@;
        let mut roots: Vec<i32> = Vec::new();
        let mut counts: HashMap<i32, usize> = HashMap::new();
        let mut i: usize = 0;
        while i < self.waiters.len()
            invariant
                self.wf(),
                graph == self@,
                i <= self.waiters@.len(),
                roots@.no_duplicates(),
                forall|pid: i32| #[trigger]
                    roots@.contains(pid) <==> counts@.contains_key(pid),
                forall|pid: i32| #[trigger]
                    counts@.contains_key(pid) <==> !graph.contains_key(pid) && exists|k: int|
                        0 <= k < i && reaches(graph, #[trigger] self.waiters@[k], pid),
                forall|pid: i32| #[trigger]
                    counts@.contains_key(pid) ==> counts@[pid] == seen_behind(
                        graph,
                        self.waiters@.take(i as int),
                        pid,
                    ).len(),
            decreases self.waiters@.len() - i,
        {
            let waiter: i32 = self.waiters[i];
            let (found, _) = self.reachable_from(waiter);
            let ghost seen = self.waiters@.take(i as int);
            let ghost more = self.waiters@.take(i + 1);
            proof {
                self.lemma_view();
                assert(more =~= seen.push(waiter));
                lemma_seen_grows(graph, seen, waiter);
            }
            let ghost counted = counts@;
            let mut j: usize = 0;
            while j < found.len()
                invariant
                    self.wf(),
                    graph == self@,
                    i < self.waiters@.len(),
                    waiter == self.waiters@[i as int],
                    seen == self.waiters@.take(i as int),
                    more == self.waiters@.take(i + 1),
                    more == seen.push(waiter),
                    found@.no_duplicates(),
                    forall|pid: i32| #[trigger]
                        found@.contains(pid) <==> reaches(graph, waiter, pid),
                    j <= found@.len(),
                    roots@.no_duplicates(),
                    forall|pid: i32| #[trigger]
                        roots@.contains(pid) <==> counts@.contains_key(pid),
                    forall|pid: i32| #[trigger]
                        counts@.contains_key(pid) <==> counted.contains_key(pid) || (
                        !graph.contains_key(pid) && found@.take(j as int).contains(pid)),
                    forall|pid: i32| #[trigger]
                        counted.contains_key(pid) ==> !graph.contains_key(pid),
                    forall|pid: i32|
                        !graph.contains_key(pid) && !counted.contains_key(pid)
                            ==> #[trigger] seen_behind(graph, seen, pid).len() == 0,
                    forall|pid: i32|
                        #![trigger seen_behind(graph, more, pid)]
                        seen_behind(graph, more, pid).len() == seen_behind(graph, seen, pid).len()
                            + (if reaches(graph, waiter, pid) {
                            1int
                        } else {
                            0
                        }),
                    forall|pid: i32| #[trigger]
                        counts@.contains_key(pid) ==> counts@[pid] == (if found@.take(
                            j as int,
                        ).contains(pid) {
                            seen_behind(graph, more, pid).len()
                        } else {
                            seen_behind(graph, seen, pid).len()
                        }),
                decreases found@.len() - j,
            {
                let pid: i32 = found[j];
                let ghost earlier = found@.take(j as int);
                let ghost upto = found@.take(j + 1);
                proof {
                    self.lemma_view();
                    assert(upto =~= earlier.push(pid));
                    assert(!earlier.contains(pid)) by {
                        if earlier.contains(pid) {
                            let k = choose|k: int| 0 <= k < j && earlier[k] == pid;
                            assert(found@[k] == found@[j as int]);
                        }
                    }
                    assert(earlier.no_duplicates());
                    lemma_push_new(earlier, pid);
                    assert(found@.contains(pid));
                }
                if !self.edges.contains_key(&pid) {
                    let so_far: Option<usize> = match counts.get(&pid) {
                        Some(count) => Some(*count),
                        None => None,
                    };
                    match so_far {
                        Some(count) => {
                            proof {
                                lemma_seen_bound(graph, more, pid);
                                assert(seen_behind(graph, more, pid).len() == count + 1);
                            }
                            counts.insert(pid, count + 1);
                        },
                        None => {
                            proof {
                                assert(!counts@.contains_key(pid));
                                lemma_push_new(roots@, pid);
                                assert(seen_behind(graph, more, pid).len() == 1);
                            }
                            roots.push(pid);
                            counts.insert(pid, 1);
                        },
                    }
                }
                j = j + 1;
            }
            assert(found@.take(j as int) =~= found@);
            assert forall|pid: i32| #[trigger] counts@.contains_key(pid) implies counts@[pid]
                == seen_behind(graph, more, pid).len() by {
                assert(found@.contains(pid) <==> reaches(graph, waiter, pid));
            }
            assert forall|pid: i32| #[trigger]
                counts@.contains_key(pid) <==> !graph.contains_key(pid) && exists|k: int|
                    0 <= k < i + 1 && reaches(graph, #[trigger] self.waiters@[k], pid) by {
                if counts@.contains_key(pid) && !counted.contains_key(pid) {
                    assert(found@.contains(pid));
                    assert(reaches(graph, self.waiters@[i as int], pid));
                }
                if !graph.contains_key(pid) && reaches(graph, waiter, pid) {
                    assert(found@.contains(pid));
                }
            }
            i = i + 1;
        }
        assert(self.waiters@.take(i as int) =~= self.waiters@);
        let mut r: Vec<RootBlocker> = Vec::new();
        let mut known: HashMap<i32, usize> = HashMap::new();
        let mut k: usize = 0;
        while k < roots.len()
            invariant
                self.wf(),
                graph == self@,
                roots@.no_duplicates(),
                k <= roots@.len(),
                r@.len() == k,
                forall|pid: i32| #[trigger]
                    roots@.contains(pid) <==> counts@.contains_key(pid),
                forall|pid: i32| #[trigger]
                    counts@.contains_key(pid) <==> !graph.contains_key(pid) && exists|w: int|
                        0 <= w < self.waiters@.len() && reaches(
                            graph,
                            #[trigger] self.waiters@[w],
                            pid,
                        ),
                forall|pid: i32| #[trigger]
                    counts@.contains_key(pid) ==> counts@[pid] == seen_behind(
                        graph,
                        self.waiters@,
                        pid,
                    ).len(),
                forall|p: i32| #[trigger]
                    known@.contains_key(p) ==> is_longest_rise(graph, seq![p], known@[p] as nat),
                forall|n: int|
                    0 <= n < k ==> (#[trigger] r@[n]).pid == roots@[n] && describes_root(
                        graph,
                        r@[n],
                    ),
            decreases roots@.len() - k,
        {
            let pid: i32 = roots[k];
            proof {
                assert(roots@.contains(pid));
                self.lemma_view();
                let w = choose|w: int|
                    0 <= w < self.waiters@.len() && reaches(graph, #[trigger] self.waiters@[w], pid);
                assert(self.waiters@.contains(self.waiters@[w]));
                assert(is_root(graph, pid));
                assert(seen_behind(graph, self.waiters@, pid) =~= waiters_behind(graph, pid));
            }
            let count: usize = match counts.get(&pid) {
                Some(count) => *count,
                None => 0,
            };
            let waiter_count: u16 = if count > u16::MAX as usize {
                u16::MAX
            } else {
                count as u16
            };
            let depth: u16 = self.cascade_depth(pid, &mut known);
            r.push(RootBlocker { pid, waiter_count, cascade_depth: depth });
            k = k + 1;
        }
        proof {
            self.lemma_view();
            assert forall|pid: i32| #[trigger] is_root(graph, pid) implies exists|n: int|
                0 <= n < r@.len() && (#[trigger] r@[n]).pid == pid by {
                let waiter = choose|waiter: i32|
                    graph.contains_key(waiter) && #[trigger] reaches(graph, waiter, pid);
                assert(self.waiters@.contains(waiter));
                let w = choose|w: int| 0 <= w < self.waiters@.len() && self.waiters@[w] == waiter;
                assert(reaches(graph, self.waiters@[w], pid));
                assert(counts@.contains_key(pid));
                assert(roots@.contains(pid));
                let n = choose|n: int| 0 <= n < roots@.len() && roots@[n] == pid;
                assert(r@[n].pid == pid);
            }
        }
        r
    }
}

/// The graph has as waiters exactly the pids that the rows name, zero apart, and
/// each of them waits on the blockers of its last row.
pub proof fn law_rows_make_the_graph(rows: Seq<WaitRow>, graph: Map<i32, Seq<i32>>)
    requires
        graph_of(rows, graph),
    ensures
        forall|i: int|
            #![trigger rows[i]]
            0 <= i < rows.len() ==> (rows[i].pid matches Some(pid) ==> (pid != 0
                ==> graph.contains_key(pid))),
        forall|pid: i32| #[trigger]
            graph.contains_key(pid) ==> pid != 0 && exists|i: int|
                0 <= i < rows.len() && (#[trigger] rows[i]).pid == Some(pid),
        forall|i: int, pid: i32|
            #![trigger rows[i], graph[pid]]
            0 <= i < rows.len() && rows[i].pid == Some(pid) && pid != 0 && (forall|j: int|
                i < j < rows.len() ==> (#[trigger] rows[j]).pid != Some(pid)) ==> (
            rows[i].blockers matches Some(blockers) ==> graph[pid] == blockers@) && (
            rows[i].blockers is None ==> graph[pid].len() == 0),
{
    assert forall|i: int|
        #![trigger rows[i]]
        0 <= i < rows.len() implies (rows[i].pid matches Some(pid) ==> (pid != 0
        ==> graph.contains_key(pid))) by {
        if let Some(pid) = rows[i].pid {
            if pid != 0 {
                lemma_last_row(rows, pid, i);
            }
        }
    }
    assert forall|pid: i32| #[trigger] graph.contains_key(pid) implies pid != 0 && exists|i: int|
        0 <= i < rows.len() && (#[trigger] rows[i]).pid == Some(pid) by {
        let i = choose|i: int| is_last_row_of(rows, pid, i);
        assert(rows[i].pid == Some(pid));
    }
    assert forall|i: int, pid: i32|
        #![trigger rows[i], graph[pid]]
        0 <= i < rows.len() && rows[i].pid == Some(pid) && pid != 0 && (forall|j: int|
            i < j < rows.len() ==> (#[trigger] rows[j]).pid != Some(pid)) implies (
    rows[i].blockers matches Some(blockers) ==> graph[pid] == blockers@) && (
    rows[i].blockers is None ==> graph[pid].len() == 0) by {
        assert(is_last_row_of(rows, pid, i));
    }
}

/// A pid that a row names has a last row.
proof fn lemma_last_row(rows: Seq<WaitRow>, pid: i32, i: int)
    requires
        0 <= i < rows.len(),
        rows[i].waiter() == pid,
        pid != 0,
    ensures
        exists|k: int| is_last_row_of(rows, pid, k),
    decreases rows.len() - i,
{
    if exists|j: int| i < j < rows.len() && (#[trigger] rows[j]).waiter() == pid {
        let j = choose|j: int| i < j < rows.len() && (#[trigger] rows[j]).waiter() == pid;
        lemma_last_row(rows, pid, j);
    } else {
        assert(is_last_row_of(rows, pid, i));
    }
}

/// The root blockers are exactly the pids that somebody waits on directly and that
/// wait on nobody themselves, each listed once.
pub proof fn law_roots_are_blockers_that_do_not_wait(
    graph: Map<i32, Seq<i32>>,
    roots: Seq<RootBlocker>,
)
    requires
        are_roots_of(graph, roots),
    ensures
        forall|n: int|
            0 <= n < roots.len() ==> !graph.contains_key((#[trigger] roots[n]).pid)
                && exists|w: i32| #[trigger]
                graph.contains_key(w) && graph[w].contains(roots[n].pid),
        forall|w: i32, pid: i32|
            #![trigger graph[w].contains(pid)]
            graph.contains_key(w) && graph[w].contains(pid) && !graph.contains_key(pid)
                ==> exists|n: int| 0 <= n < roots.len() && (#[trigger] roots[n]).pid == pid,
        forall|m: int, n: int|
            0 <= m < n < roots.len() ==> (#[trigger] roots[m]).pid != (#[trigger] roots[n]).pid,
{
    assert forall|n: int| 0 <= n < roots.len() implies !graph.contains_key(
        (#[trigger] roots[n]).pid,
    ) && exists|w: i32| #[trigger] graph.contains_key(w) && graph[w].contains(roots[n].pid) by {
        let pid = roots[n].pid;
        assert(describes_root(graph, roots[n]));
        let waiter = choose|waiter: i32|
            graph.contains_key(waiter) && #[trigger] reaches(graph, waiter, pid);
        let chain = choose|chain: Seq<i32>| #[trigger] connects(graph, chain, waiter, pid);
        assert(chain.len() >= 2);
        assert(linked(graph, chain, chain.len() - 2));
        assert(graph.contains_key(chain[chain.len() - 2]));
    }
    assert forall|w: i32, pid: i32|
        #![trigger graph[w].contains(pid)]
        graph.contains_key(w) && graph[w].contains(pid) && !graph.contains_key(
            pid,
        ) implies exists|n: int| 0 <= n < roots.len() && (#[trigger] roots[n]).pid == pid by {
        crate::chain::lemma_reaches_itself(graph, w);
        assert(waits_on(graph, w, pid));
        crate::chain::lemma_reaches_further(graph, w, w, pid);
        assert(is_root(graph, pid));
    }
}

/// The waiter count of a root blocker is the size of the smallest set that holds
/// everybody who waits on the root directly and everybody who waits on a member, up
/// to the largest 16-bit number.
pub proof fn law_waiters_are_those_queued_behind(
    graph: Map<i32, Seq<i32>>,
    root: RootBlocker,
    queued: Set<i32>,
)
    requires
        describes_root(graph, root),
        forall|w: i32| #[trigger]
            graph.contains_key(w) && graph[w].contains(root.pid) ==> queued.contains(w),
        forall|w: i32, x: i32|
            #![trigger graph[w].contains(x)]
            graph.contains_key(w) && graph[w].contains(x) && queued.contains(x)
                ==> queued.contains(w),
        forall|other: Set<i32>|
            (forall|w: i32| #[trigger]
                graph.contains_key(w) && graph[w].contains(root.pid) ==> other.contains(w)) && (
            forall|w: i32, x: i32|
                #![trigger graph[w].contains(x)]
                graph.contains_key(w) && graph[w].contains(x) && other.contains(x)
                    ==> other.contains(w)) ==> #[trigger] queued.subset_of(other),
    ensures
        queued.len() <= 65535 ==> root.waiter_count == queued.len(),
        queued.len() > 65535 ==> root.waiter_count == 65535,
{
    let behind = waiters_behind(graph, root.pid);
    assert forall|w: i32| #[trigger]
        graph.contains_key(w) && graph[w].contains(root.pid) implies behind.contains(w) by {
        crate::chain::lemma_reaches_itself(graph, w);
        assert(waits_on(graph, w, root.pid));
        crate::chain::lemma_reaches_further(graph, w, w, root.pid);
    }
    assert forall|w: i32, x: i32|
        #![trigger graph[w].contains(x)]
        graph.contains_key(w) && graph[w].contains(x) && behind.contains(
            x,
        ) implies behind.contains(w) by {
        crate::chain::lemma_reaches_itself(graph, w);
        assert(waits_on(graph, w, x));
        crate::chain::lemma_reaches_further(graph, w, w, x);
        crate::chain::lemma_reaches_transitive(graph, w, x, root.pid);
    }
    assert(queued.subset_of(behind));
    assert forall|w: i32| behind.contains(w) implies queued.contains(w) by {
        let chain = choose|chain: Seq<i32>| #[trigger] connects(graph, chain, w, root.pid);
        assert(chain.len() >= 2);
        lemma_queued_along(graph, root.pid, queued, chain, 0);
    }
    assert(queued =~= behind);
}

/// Everybody on a chain to the root is queued behind it.
proof fn lemma_queued_along(
    graph: Map<i32, Seq<i32>>,
    root: i32,
    queued: Set<i32>,
    chain: Seq<i32>,
    k: int,
)
    requires
        crate::chain::is_chain(graph, chain),
        chain.last() == root,
        0 <= k < chain.len() - 1,
        forall|w: i32| #[trigger]
            graph.contains_key(w) && graph[w].contains(root) ==> queued.contains(w),
        forall|w: i32, x: i32|
            #![trigger graph[w].contains(x)]
            graph.contains_key(w) && graph[w].contains(x) && queued.contains(x)
                ==> queued.contains(w),
    ensures
        queued.contains(chain[k]),
    decreases chain.len() - k,
{
    assert(linked(graph, chain, k));
    assert(graph.contains_key(chain[k]) && graph[chain[k]].contains(chain[k + 1]));
    if k < chain.len() - 2 {
        lemma_queued_along(graph, root, queued, chain, k + 1);
    }
}

/// No wait-chain without repetition that ends at a root blocker is longer than its
/// cascade depth allows: a chain of a root and `m` waiters has a depth of at least
/// `m - 1`. One chain is exactly that long. Depths stop at the largest 16-bit
/// number.
pub proof fn law_depth_is_the_longest_chain(
    graph: Map<i32, Seq<i32>>,
    root: RootBlocker,
)
    requires
        describes_root(graph, root),
    ensures
        forall|chain: Seq<i32>|
            #![trigger chain.len()]
            chain.len() >= 2 && chain[chain.len() - 1] == root.pid && (forall|k: int|
                0 <= k < chain.len() - 1 ==> graph.contains_key(#[trigger] chain[k])
                    && graph[chain[k]].contains(chain[k + 1])) && (forall|i: int, j: int|
                0 <= i < j < chain.len() ==> #[trigger] chain[i] != #[trigger] chain[j])
                ==> root.cascade_depth >= chain.len() - 2 || root.cascade_depth == 65535,
        exists|chain: Seq<i32>|
            #![trigger chain.len()]
            chain.len() >= 2 && chain[chain.len() - 1] == root.pid && (forall|k: int|
                0 <= k < chain.len() - 1 ==> graph.contains_key(#[trigger] chain[k])
                    && graph[chain[k]].contains(chain[k + 1])) && (forall|i: int, j: int|
                0 <= i < j < chain.len() ==> #[trigger] chain[i] != #[trigger] chain[j]) && (
            chain.len() - 2 == root.cascade_depth || (root.cascade_depth == 65535 && chain.len()
                - 2 > 65535)),
{
    let n = choose|n: nat| #[trigger]
        is_cascade_depth(graph, root.pid, n) && root.cascade_depth == at_most_u16(n);
    assert forall|chain: Seq<i32>|
        #![trigger chain.len()]
        chain.len() >= 2 && chain[chain.len() - 1] == root.pid && (forall|k: int|
            0 <= k < chain.len() - 1 ==> graph.contains_key(#[trigger] chain[k])
                && graph[chain[k]].contains(chain[k + 1])) && (forall|i: int, j: int|
            0 <= i < j < chain.len() ==> #[trigger] chain[i] != #[trigger] chain[j]) implies
        root.cascade_depth >= chain.len() - 2 || root.cascade_depth == 65535 by {
        assert forall|k: int| 0 <= k < chain.len() - 1 implies #[trigger] linked(graph, chain, k) by {
            assert(graph.contains_key(chain[k]));
        }
        assert(chain.no_duplicates()) by {
            assert forall|i: int, j: int|
                0 <= i < chain.len() && 0 <= j < chain.len() && i != j implies chain[i]
                != chain[j] by {
                if i > j {
                    assert(chain[j] != chain[i]);
                }
            }
        }
        assert(crate::chain::hangs_off(graph, chain, root.pid));
    }
    let chain = choose|chain: Seq<i32>| #[trigger]
        crate::chain::hangs_off(graph, chain, root.pid) && chain.len() == n + 2;
    assert forall|k: int| 0 <= k < chain.len() - 1 implies graph.contains_key(#[trigger] chain[k])
        && graph[chain[k]].contains(chain[k + 1]) by {
        assert(linked(graph, chain, k));
    }
    assert(chain.len() - 2 == root.cascade_depth || (root.cascade_depth == 65535 && chain.len() - 2
        > 65535));
}

} // verus!
