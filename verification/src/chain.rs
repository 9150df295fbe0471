//! Wait-for graphs as mathematics: who waits on whom, through how many others,
//! and how long the longest chain of waiters is.
//!
//! A graph maps the pid of each waiter to the pids that it directly waits on. A
//! pid that waits on nobody is not in the map.

use vstd::prelude::*;

verus! {

/// `waiter` is blocked directly by `blocker`.
pub open spec fn waits_on(graph: Map<i32, Seq<i32>>, waiter: i32, blocker: i32) -> bool {
    graph.contains_key(waiter) && graph[waiter].contains(blocker)
}

/// The member of `chain` at `k` is blocked directly by the one after it.
pub open spec fn linked(graph: Map<i32, Seq<i32>>, chain: Seq<i32>, k: int) -> bool {
    waits_on(graph, chain[k], chain[k + 1])
}

/// Every member of `chain` but the last waits on the next one.
pub open spec fn is_chain(graph: Map<i32, Seq<i32>>, chain: Seq<i32>) -> bool {
    &&& chain.len() > 0
    &&& forall|k: int| 0 <= k < chain.len() - 1 ==> #[trigger] linked(graph, chain, k)
}

/// `chain` leads from `from` to `to`.
pub open spec fn connects(graph: Map<i32, Seq<i32>>, chain: Seq<i32>, from: i32, to: i32) -> bool {
    &&& is_chain(graph, chain)
    &&& chain.first() == from
    &&& chain.last() == to
}

/// `waiter` waits on `blocker`, directly or through others.
pub open spec fn reaches(graph: Map<i32, Seq<i32>>, waiter: i32, blocker: i32) -> bool {
    exists|chain: Seq<i32>| #[trigger] connects(graph, chain, waiter, blocker)
}

/// The transitive waiters behind `root`.
pub open spec fn waiters_behind(graph: Map<i32, Seq<i32>>, root: i32) -> Set<i32> {
    graph.dom().filter(|waiter: i32| reaches(graph, waiter, root))
}

/// `pid` is a root blocker: somebody waits on it, and it waits on nobody.
pub open spec fn is_root(graph: Map<i32, Seq<i32>>, pid: i32) -> bool {
    &&& !graph.contains_key(pid)
    &&& exists|waiter: i32| graph.contains_key(waiter) && #[trigger] reaches(graph, waiter, pid)
}

/// `chain` is a wait-chain that hangs off `root`: at least one waiter, nobody
/// twice, and `root` at its end.
pub open spec fn hangs_off(graph: Map<i32, Seq<i32>>, chain: Seq<i32>, root: i32) -> bool {
    &&& is_chain(graph, chain)
    &&& chain.no_duplicates()
    &&& chain.len() >= 2
    &&& chain.last() == root
}

/// `depth` is the number of waiters that the first waiter of the longest chain
/// that hangs off `root` has ahead of it: 0 where waiters are queued on `root`
/// only, 1 where a waiter is queued behind another waiter, and so on.
pub open spec fn is_cascade_depth(graph: Map<i32, Seq<i32>>, root: i32, depth: nat) -> bool {
    &&& exists|chain: Seq<i32>|
        #[trigger] hangs_off(graph, chain, root) && chain.len() == depth + 2
    &&& forall|chain: Seq<i32>| #[trigger]
        hangs_off(graph, chain, root) ==> chain.len() <= depth + 2
}

/// One more link at the end of a chain.
pub proof fn lemma_extend_back(
    graph: Map<i32, Seq<i32>>,
    chain: Seq<i32>,
    from: i32,
    to: i32,
    blocker: i32,
)
    requires
        connects(graph, chain, from, to),
        waits_on(graph, to, blocker),
    ensures
        connects(graph, chain.push(blocker), from, blocker),
{
    let longer = chain.push(blocker);
    assert forall|k: int| 0 <= k < longer.len() - 1 implies #[trigger] linked(graph, longer, k) by {
        if k < chain.len() - 1 {
            assert(linked(graph, chain, k));
        }
    }
}

/// What is reached can be passed on by one link.
pub proof fn lemma_reaches_further(graph: Map<i32, Seq<i32>>, waiter: i32, mid: i32, blocker: i32)
    requires
        reaches(graph, waiter, mid),
        waits_on(graph, mid, blocker),
    ensures
        reaches(graph, waiter, blocker),
{
    let chain = choose|chain: Seq<i32>| #[trigger] connects(graph, chain, waiter, mid);
    lemma_extend_back(graph, chain, waiter, mid, blocker);
}

/// Every pid reaches itself.
pub proof fn lemma_reaches_itself(graph: Map<i32, Seq<i32>>, pid: i32)
    ensures
        reaches(graph, pid, pid),
{
    assert(connects(graph, seq![pid], pid, pid));
}

/// A set of pids that is closed under "waits on" holds everything that its
/// members reach.
pub proof fn lemma_closed_set(
    graph: Map<i32, Seq<i32>>,
    pids: Set<i32>,
    waiter: i32,
    blocker: i32,
)
    requires
        pids.contains(waiter),
        forall|a: i32, b: i32|
            pids.contains(a) && #[trigger] waits_on(graph, a, b) ==> pids.contains(b),
        reaches(graph, waiter, blocker),
    ensures
        pids.contains(blocker),
{
    let chain = choose|chain: Seq<i32>| #[trigger] connects(graph, chain, waiter, blocker);
    lemma_closed_chain(graph, pids, chain, chain.len() - 1);
}

proof fn lemma_closed_chain(graph: Map<i32, Seq<i32>>, pids: Set<i32>, chain: Seq<i32>, k: int)
    requires
        is_chain(graph, chain),
        pids.contains(chain.first()),
        forall|a: i32, b: i32|
            pids.contains(a) && #[trigger] waits_on(graph, a, b) ==> pids.contains(b),
        0 <= k < chain.len(),
    ensures
        pids.contains(chain[k]),
    decreases k,
{
    if k > 0 {
        lemma_closed_chain(graph, pids, chain, k - 1);
        assert(linked(graph, chain, k - 1));
    }
}

/// Waiting is passed on: who waits on `mid` waits on whatever `mid` waits on.
pub proof fn lemma_reaches_transitive(
    graph: Map<i32, Seq<i32>>,
    waiter: i32,
    mid: i32,
    blocker: i32,
)
    requires
        reaches(graph, waiter, mid),
        reaches(graph, mid, blocker),
    ensures
        reaches(graph, waiter, blocker),
{
    let behind = Set::new(|pid: i32| reaches(graph, waiter, pid));
    assert forall|a: i32, b: i32| behind.contains(a) && #[trigger] waits_on(graph, a, b) implies
        behind.contains(b) by {
        lemma_reaches_further(graph, waiter, a, b);
    }
    lemma_closed_set(graph, behind, mid, blocker);
}

/// The member of `chain` after the one at `k` is blocked directly by it.
pub open spec fn climbs(graph: Map<i32, Seq<i32>>, chain: Seq<i32>, k: int) -> bool {
    waits_on(graph, chain[k + 1], chain[k])
}

/// `chain` is a wait-chain read from its blocker up to its first waiter, with
/// nobody in it twice.
pub open spec fn is_rising(graph: Map<i32, Seq<i32>>, chain: Seq<i32>) -> bool {
    &&& chain.len() > 0
    &&& chain.no_duplicates()
    &&& forall|k: int| 0 <= k < chain.len() - 1 ==> #[trigger] climbs(graph, chain, k)
}

/// `chain` is a rising chain that starts with the members of `start`.
pub open spec fn rises_from(graph: Map<i32, Seq<i32>>, chain: Seq<i32>, start: Seq<i32>) -> bool {
    &&& is_rising(graph, chain)
    &&& chain.len() >= start.len()
    &&& chain.take(start.len() as int) == start
}

/// The longest rising chain that starts with the members of `start` has `len`
/// members.
pub open spec fn is_longest_rise(graph: Map<i32, Seq<i32>>, start: Seq<i32>, len: nat) -> bool {
    &&& exists|chain: Seq<i32>| #[trigger] rises_from(graph, chain, start) && chain.len() == len
    &&& forall|chain: Seq<i32>| #[trigger]
        rises_from(graph, chain, start) ==> chain.len() <= len
}

/// A member of a rising chain waits on every member before it.
pub proof fn lemma_rising_reaches(graph: Map<i32, Seq<i32>>, chain: Seq<i32>, low: int, high: int)
    requires
        is_rising(graph, chain),
        0 <= low <= high < chain.len(),
    ensures
        reaches(graph, chain[high], chain[low]),
    decreases high - low,
{
    if low == high {
        lemma_reaches_itself(graph, chain[low]);
    } else {
        lemma_rising_reaches(graph, chain, low + 1, high);
        assert(climbs(graph, chain, low));
        lemma_reaches_further(graph, chain[high], chain[low + 1], chain[low]);
    }
}

/// A rising chain has at most one member that is not a waiter.
pub proof fn lemma_rising_len(graph: Map<i32, Seq<i32>>, chain: Seq<i32>)
    requires
        is_rising(graph, chain),
        graph.dom().finite(),
    ensures
        chain.len() <= graph.dom().len() + 1,
{
    let rest = chain.drop_first();
    assert(rest.no_duplicates());
    assert forall|k: int| 0 <= k < rest.len() implies graph.dom().contains(#[trigger] rest[k]) by {
        assert(climbs(graph, chain, k));
    }
    rest.unique_seq_to_set();
    assert(rest.to_set().subset_of(graph.dom()));
    vstd::set_lib::lemma_len_subset(rest.to_set(), graph.dom());
}

/// A rising chain can take in a waiter of its last member that is not in it yet.
pub proof fn lemma_rise_by_one(graph: Map<i32, Seq<i32>>, chain: Seq<i32>, waiter: i32)
    requires
        is_rising(graph, chain),
        waits_on(graph, waiter, chain.last()),
        !chain.contains(waiter),
    ensures
        is_rising(graph, chain.push(waiter)),
{
    let more = chain.push(waiter);
    assert forall|k: int| 0 <= k < more.len() - 1 implies #[trigger] climbs(graph, more, k) by {
        if k < chain.len() - 1 {
            assert(climbs(graph, chain, k));
        }
    }
    assert forall|i: int, j: int|
        0 <= i < more.len() && 0 <= j < more.len() && i != j implies more[i] != more[j] by {
        if i == chain.len() {
            assert(chain.contains(chain[j]));
        }
        if j == chain.len() {
            assert(chain.contains(chain[i]));
        }
    }
}

/// A rising chain that goes on beyond `start` goes on with a waiter of the last
/// member of `start` that is not in `start`.
pub proof fn lemma_rise_splits(graph: Map<i32, Seq<i32>>, chain: Seq<i32>, start: Seq<i32>)
    requires
        rises_from(graph, chain, start),
        0 < start.len() < chain.len(),
    ensures
        waits_on(graph, chain[start.len() as int], start.last()),
        !start.contains(chain[start.len() as int]),
        rises_from(graph, chain, start.push(chain[start.len() as int])),
{
    let n = start.len() as int;
    assert(climbs(graph, chain, n - 1));
    assert(chain.take(n).last() == chain[n - 1]);
    if start.contains(chain[n]) {
        let k = choose|k: int| 0 <= k < n && start[k] == chain[n];
        assert(chain.take(n)[k] == chain[k]);
    }
    assert(chain.take(n + 1) =~= start.push(chain[n]));
}

/// Where the last member of `start` does not wait on `waiter`, a chain that goes
/// on with `waiter` can go on exactly as far as one that starts at `waiter`.
pub proof fn lemma_rise_beyond(
    graph: Map<i32, Seq<i32>>,
    start: Seq<i32>,
    waiter: i32,
    len: nat,
)
    requires
        is_rising(graph, start),
        waits_on(graph, waiter, start.last()),
        !reaches(graph, start.last(), waiter),
        is_longest_rise(graph, seq![waiter], len),
    ensures
        is_longest_rise(graph, start.push(waiter), start.len() + len),
{
    let n = start.len() as int;
    let first = start.push(waiter);
    assert forall|chain: Seq<i32>| #[trigger] rises_from(graph, chain, first) implies chain.len()
        <= n + len by {
        let rest = chain.skip(n);
        assert(chain.take(n + 1)[n] == first[n]);
        assert forall|k: int| 0 <= k < rest.len() - 1 implies #[trigger] climbs(graph, rest, k) by {
            assert(climbs(graph, chain, n + k));
        }
        assert(rest.take(1) =~= seq![waiter]);
        assert(rises_from(graph, rest, seq![waiter]));
    }
    let rest = choose|rest: Seq<i32>| #[trigger]
        rises_from(graph, rest, seq![waiter]) && rest.len() == len;
    assert(rest.take(1)[0] == waiter);
    let chain = start + rest;
    assert forall|k: int| 0 <= k < chain.len() - 1 implies #[trigger] climbs(graph, chain, k) by {
        if k < n - 1 {
            assert(climbs(graph, start, k));
        } else if k >= n {
            assert(climbs(graph, rest, k - n));
        }
    }
    assert forall|i: int, j: int|
        0 <= i < n && 0 <= j < rest.len() implies start[i] != rest[j] by {
        if start[i] == rest[j] {
            lemma_rising_reaches(graph, start, i, n - 1);
            lemma_rising_reaches(graph, rest, 0, j);
            lemma_reaches_transitive(graph, start.last(), start[i], waiter);
        }
    }
    assert(chain.no_duplicates());
    assert(chain.take(n + 1) =~= first);
    assert(rises_from(graph, chain, first));
}

/// The waiters behind `pid`, and `pid` itself.
pub open spec fn at_or_behind(graph: Map<i32, Seq<i32>>, pid: i32) -> Set<i32> {
    waiters_behind(graph, pid).insert(pid)
}

/// No more is behind a waiter than behind what it waits on, and less where that
/// does not wait back.
pub proof fn lemma_less_behind(graph: Map<i32, Seq<i32>>, waiter: i32, blocker: i32)
    requires
        graph.dom().finite(),
        waits_on(graph, waiter, blocker),
        waiter != blocker,
    ensures
        at_or_behind(graph, waiter).len() <= at_or_behind(graph, blocker).len(),
        !reaches(graph, blocker, waiter) ==> at_or_behind(graph, waiter).len() < at_or_behind(
            graph,
            blocker,
        ).len(),
{
    let up = at_or_behind(graph, waiter);
    let down = at_or_behind(graph, blocker);
    lemma_reaches_itself(graph, waiter);
    lemma_reaches_further(graph, waiter, waiter, blocker);
    assert forall|pid: i32| up.contains(pid) implies down.contains(pid) by {
        if pid != waiter {
            lemma_reaches_further(graph, pid, waiter, blocker);
        }
    }
    assert(up.subset_of(down));
    vstd::set_lib::lemma_len_subset(up, down);
    if !reaches(graph, blocker, waiter) {
        assert(!up.contains(blocker));
        assert(up.subset_of(down.remove(blocker)));
        vstd::set_lib::lemma_len_subset(up, down.remove(blocker));
    }
}

/// The longest chain that rises from a root blocker gives its cascade depth.
pub proof fn lemma_longest_rise_is_depth(graph: Map<i32, Seq<i32>>, root: i32, len: nat)
    requires
        is_longest_rise(graph, seq![root], len),
        len >= 2,
    ensures
        is_cascade_depth(graph, root, (len - 2) as nat),
{
    let up = choose|up: Seq<i32>| #[trigger] rises_from(graph, up, seq![root]) && up.len() == len;
    let chain = up.reverse();
    assert(up.take(1)[0] == root);
    assert forall|k: int| 0 <= k < chain.len() - 1 implies #[trigger] linked(graph, chain, k) by {
        assert(climbs(graph, up, up.len() - 2 - k));
    }
    assert(hangs_off(graph, chain, root));
    assert forall|other: Seq<i32>| #[trigger] hangs_off(graph, other, root) implies other.len()
        <= len by {
        let rising = other.reverse();
        assert forall|k: int| 0 <= k < rising.len() - 1 implies #[trigger] climbs(graph, rising, k)
            by {
            assert(linked(graph, other, other.len() - 2 - k));
        }
        assert(rising.take(1) =~= seq![root]);
        assert(rises_from(graph, rising, seq![root]));
    }
}

/// Whoever waits on `blocker` does so along a chain that passes nobody twice.
proof fn lemma_simple_chain(graph: Map<i32, Seq<i32>>, chain: Seq<i32>, waiter: i32, blocker: i32) -> (
    simple: Seq<i32>)
    requires
        connects(graph, chain, waiter, blocker),
    ensures
        connects(graph, simple, waiter, blocker),
        simple.no_duplicates(),
    decreases chain.len(),
{
    if chain.no_duplicates() {
        chain
    } else {
        let (a, b) = choose|a: int, b: int|
            0 <= a < chain.len() && 0 <= b < chain.len() && a != b && #[trigger] chain[a]
                == #[trigger] chain[b];
        let (i, j) = if a < b {
            (a, b)
        } else {
            (b, a)
        };
        let shorter = chain.take(i + 1) + chain.skip(j + 1);
        assert forall|k: int| 0 <= k < shorter.len() - 1 implies #[trigger] linked(
            graph,
            shorter,
            k,
        ) by {
            if k < i {
                assert(linked(graph, chain, k));
            } else {
                assert(linked(graph, chain, k - i + j));
            }
        }
        lemma_simple_chain(graph, shorter, waiter, blocker)
    }
}

/// The cascade depth is a number of its own: a root has no two depths.
pub proof fn law_depth_is_unique(graph: Map<i32, Seq<i32>>, root: i32, a: nat, b: nat)
    requires
        is_cascade_depth(graph, root, a),
        is_cascade_depth(graph, root, b),
    ensures
        a == b,
{
    let longest = choose|chain: Seq<i32>|
        #[trigger] hangs_off(graph, chain, root) && chain.len() == a + 2;
    let other = choose|chain: Seq<i32>|
        #[trigger] hangs_off(graph, chain, root) && chain.len() == b + 2;
    assert(longest.len() <= b + 2);
    assert(other.len() <= a + 2);
}

/// Every root blocker of a finite graph has a cascade depth, deadlocks among its
/// waiters or not.
pub proof fn law_every_root_has_a_depth(graph: Map<i32, Seq<i32>>, root: i32)
    requires
        graph.dom().finite(),
        is_root(graph, root),
    ensures
        exists|depth: nat| is_cascade_depth(graph, root, depth),
{
    let waiter = choose|waiter: i32|
        graph.contains_key(waiter) && #[trigger] reaches(graph, waiter, root);
    let chain = choose|chain: Seq<i32>| #[trigger] connects(graph, chain, waiter, root);
    let simple = lemma_simple_chain(graph, chain, waiter, root);
    assert(simple.len() >= 2);
    assert(hangs_off(graph, simple, root));
    lemma_depth_from(graph, root, simple);
}

/// The search for a longest chain ends, since no chain can have more members than
/// there are waiters and a root.
proof fn lemma_depth_from(graph: Map<i32, Seq<i32>>, root: i32, chain: Seq<i32>)
    requires
        graph.dom().finite(),
        hangs_off(graph, chain, root),
    ensures
        exists|depth: nat| is_cascade_depth(graph, root, depth),
    decreases graph.dom().len() + 2 - chain.len(),
{
    lemma_chain_len(graph, chain, root);
    if exists|longer: Seq<i32>| #[trigger]
        hangs_off(graph, longer, root) && longer.len() > chain.len() {
        let longer = choose|longer: Seq<i32>| #[trigger]
            hangs_off(graph, longer, root) && longer.len() > chain.len();
        lemma_chain_len(graph, longer, root);
        lemma_depth_from(graph, root, longer);
    } else {
        assert(is_cascade_depth(graph, root, (chain.len() - 2) as nat));
    }
}

/// The waiters of a chain that hangs off `root` are waiters behind `root`.
proof fn lemma_chain_len(graph: Map<i32, Seq<i32>>, chain: Seq<i32>, root: i32)
    requires
        graph.dom().finite(),
        hangs_off(graph, chain, root),
    ensures
        chain.len() <= waiters_behind(graph, root).len() + 1,
        chain.len() <= graph.dom().len() + 1,
{
    let waiters = chain.drop_last();
    assert forall|k: int| 0 <= k < waiters.len() implies waiters_behind(graph, root).contains(
        #[trigger] waiters[k],
    ) by {
        assert(linked(graph, chain, k));
        let rest = chain.skip(k);
        assert forall|m: int| 0 <= m < rest.len() - 1 implies #[trigger] linked(graph, rest, m) by {
            assert(linked(graph, chain, k + m));
        }
        assert(connects(graph, rest, chain[k], root));
    }
    assert(waiters.no_duplicates());
    waiters.unique_seq_to_set();
    assert(waiters.to_set().subset_of(waiters_behind(graph, root)));
    vstd::set_lib::lemma_len_subset(waiters.to_set(), waiters_behind(graph, root));
    vstd::set_lib::lemma_len_subset(waiters_behind(graph, root), graph.dom());
}

/// A cascade is never deeper than there are waiters: the longest chain holds one
/// waiter more than its depth.
pub proof fn law_depth_is_below_the_waiter_count(graph: Map<i32, Seq<i32>>, root: i32, depth: nat)
    requires
        graph.dom().finite(),
        is_cascade_depth(graph, root, depth),
    ensures
        depth < waiters_behind(graph, root).len(),
{
    let chain = choose|chain: Seq<i32>|
        #[trigger] hangs_off(graph, chain, root) && chain.len() == depth + 2;
    lemma_chain_len(graph, chain, root);
}

/// A depth of zero says that every waiter is queued directly on the root.
pub proof fn law_depth_zero_means_direct(graph: Map<i32, Seq<i32>>, root: i32, waiter: i32)
    requires
        is_root(graph, root),
        is_cascade_depth(graph, root, 0),
        waiters_behind(graph, root).contains(waiter),
    ensures
        waits_on(graph, waiter, root),
{
    let chain = choose|chain: Seq<i32>| #[trigger] connects(graph, chain, waiter, root);
    let simple = lemma_simple_chain(graph, chain, waiter, root);
    assert(simple.len() >= 2);
    assert(hangs_off(graph, simple, root));
    assert(linked(graph, simple, 0));
}

/// A waiter that is queued behind another waiter makes the cascade at least one
/// deep, even where it is queued on the root as well.
pub proof fn law_queueing_behind_a_waiter_counts(
    graph: Map<i32, Seq<i32>>,
    root: i32,
    ahead: i32,
    waiter: i32,
    depth: nat,
)
    requires
        is_root(graph, root),
        is_cascade_depth(graph, root, depth),
        waits_on(graph, ahead, root),
        waits_on(graph, waiter, ahead),
        waiter != ahead,
    ensures
        depth >= 1,
{
    let chain = seq![waiter, ahead, root];
    assert(linked(graph, chain, 0));
    assert(linked(graph, chain, 1));
    assert(hangs_off(graph, chain, root));
}

} // verus!
