//! What the sort promises: topological orders, cycles, and the elements that a
//! cycle blocks, with the laws that tie them together.
use crate::relation::{elements, lemma_elements_finite, waits_within};
use vstd::prelude::*;
use vstd::set_lib::lemma_len_subset;

verus! {

/// `p` stands somewhere before `s` in `order`.
pub open spec fn precedes(order: Seq<usize>, p: usize, s: usize) -> bool {
    exists|a: int, b: int| 0 <= a < b < order.len() && order[a] == p && order[b] == s
}

/// `order` lists every distinct element exactly once, and every edge's
/// predecessor before its successor.
pub open spec fn is_topological_order(edges: Seq<(usize, usize)>, order: Seq<usize>) -> bool {
    &&& order.no_duplicates()
    &&& order.to_set() == elements(edges)
    &&& forall|i: int|
        0 <= i < edges.len() ==> precedes(order, (#[trigger] edges[i]).0, edges[i].1)
}

/// Some edge leads from the element at position `k` of `walk` to the next one.
pub open spec fn is_step(edges: Seq<(usize, usize)>, walk: Seq<usize>, k: int) -> bool {
    edges.contains((walk[k], walk[k + 1]))
}

/// `walk` follows one edge after another and ends where it began. A self-loop
/// `(x, x)` is the walk `x, x`.
pub open spec fn is_cycle(edges: Seq<(usize, usize)>, walk: Seq<usize>) -> bool {
    &&& walk.len() >= 2
    &&& walk.first() == walk.last()
    &&& forall|k: int| 0 <= k < walk.len() - 1 ==> #[trigger] is_step(edges, walk, k)
}

/// The relation contains a cycle.
pub open spec fn has_cycle(edges: Seq<(usize, usize)>) -> bool {
    exists|walk: Seq<usize>| is_cycle(edges, walk)
}

/// Every member of `stuck` waits for another member: none of them can ever be
/// placed first.
pub open spec fn is_deadlocked(edges: Seq<(usize, usize)>, stuck: Set<usize>) -> bool {
    forall|x: usize| stuck.contains(x) ==> #[trigger] waits_within(edges, stuck, x)
}

/// The elements that can never be placed: those that belong to some deadlocked set.
pub open spec fn blocked_elements(edges: Seq<(usize, usize)>) -> Set<usize> {
    Set::new(|x: usize| exists|stuck: Set<usize>| is_deadlocked(edges, stuck) && stuck.contains(x))
}

/// The position of an edge that leads into `x` from a member of `stuck`.
spec fn blocking_edge(edges: Seq<(usize, usize)>, stuck: Set<usize>, x: usize) -> int {
    choose|i: int|
        0 <= i < edges.len() && (#[trigger] edges[i]).1 == x && stuck.contains(edges[i].0)
}

/// A predecessor inside `stuck` that `x` waits for.
spec fn blocker(edges: Seq<(usize, usize)>, stuck: Set<usize>, x: usize) -> usize {
    edges[blocking_edge(edges, stuck, x)].0
}

/// The element reached from `start` by stepping `steps` times to a blocker.
spec fn trace_back(edges: Seq<(usize, usize)>, stuck: Set<usize>, start: usize, steps: nat) -> usize
    decreases steps,
{
    if steps == 0 {
        start
    } else {
        blocker(edges, stuck, trace_back(edges, stuck, start, (steps - 1) as nat))
    }
}

proof fn lemma_blocker(edges: Seq<(usize, usize)>, stuck: Set<usize>, x: usize)
    requires
        is_deadlocked(edges, stuck),
        stuck.contains(x),
    ensures
        stuck.contains(blocker(edges, stuck, x)),
        edges.contains((blocker(edges, stuck, x), x)),
{
    assert(waits_within(edges, stuck, x));
    let i = blocking_edge(edges, stuck, x);
    assert(edges[i] == (blocker(edges, stuck, x), x));
}

proof fn lemma_trace_back(edges: Seq<(usize, usize)>, stuck: Set<usize>, start: usize, steps: nat)
    requires
        is_deadlocked(edges, stuck),
        stuck.contains(start),
    ensures
        stuck.contains(trace_back(edges, stuck, start, steps)),
        edges.contains(
            (
                trace_back(edges, stuck, start, steps + 1),
                trace_back(edges, stuck, start, steps),
            ),
        ),
    decreases steps,
{
    if steps > 0 {
        lemma_trace_back(edges, stuck, start, (steps - 1) as nat);
        lemma_blocker(edges, stuck, trace_back(edges, stuck, start, (steps - 1) as nat));
    }
    lemma_blocker(edges, stuck, trace_back(edges, stuck, start, steps));
}

proof fn lemma_walk_ascends(
    edges: Seq<(usize, usize)>,
    order: Seq<usize>,
    walk: Seq<usize>,
    k: int,
)
    requires
        is_topological_order(edges, order),
        forall|j: int| 0 <= j < walk.len() - 1 ==> #[trigger] is_step(edges, walk, j),
        1 <= k < walk.len(),
    ensures
        precedes(order, walk[0], walk[k]),
    decreases k,
{
    assert(is_step(edges, walk, k - 1));
    let i = choose|i: int| 0 <= i < edges.len() && edges[i] == (walk[k - 1], walk[k]);
    assert(precedes(order, edges[i].0, edges[i].1));
    if k > 1 {
        lemma_walk_ascends(edges, order, walk, k - 1);
        let (a, b) = choose|a: int, b: int|
            0 <= a < b < order.len() && order[a] == walk[0] && order[b] == walk[k - 1];
        let (c, d) = choose|c: int, d: int|
            0 <= c < d < order.len() && order[c] == walk[k - 1] && order[d] == walk[k];
        assert(b == c);
        assert(0 <= a < d < order.len() && order[a] == walk[0] && order[d] == walk[k]);
    }
}

/// In a topological order the position of an edge's predecessor is smaller
/// than the position of its successor.
pub proof fn lemma_order_by_index(edges: Seq<(usize, usize)>, order: Seq<usize>, i: int)
    requires
        is_topological_order(edges, order),
        0 <= i < edges.len(),
    ensures
        0 <= order.index_of(edges[i].0) < order.index_of(edges[i].1) < order.len(),
{
    assert(precedes(order, edges[i].0, edges[i].1));
    let (a, b) = choose|a: int, b: int|
        0 <= a < b < order.len() && order[a] == edges[i].0 && order[b] == edges[i].1;
    let first = order.index_of(edges[i].0);
    let second = order.index_of(edges[i].1);
    assert(0 <= first < order.len() && order[first] == order[a]);
    assert(0 <= second < order.len() && order[second] == order[b]);
}

/// A relation that can be ordered contains no cycle: along a cycle every
/// element would have to stand before itself.
pub proof fn lemma_order_excludes_cycle(edges: Seq<(usize, usize)>, order: Seq<usize>)
    requires
        is_topological_order(edges, order),
    ensures
        !has_cycle(edges),
{
    if has_cycle(edges) {
        let walk = choose|walk: Seq<usize>| is_cycle(edges, walk);
        lemma_walk_ascends(edges, order, walk, walk.len() - 1);
        let (a, b) = choose|a: int, b: int|
            0 <= a < b < order.len() && order[a] == walk[0] && order[b] == walk[walk.len() - 1];
        assert(order[a] == order[b]);
    }
}

/// The elements of a cycle are deadlocked: each waits for the one before it.
pub proof fn lemma_cycle_is_deadlocked(edges: Seq<(usize, usize)>, walk: Seq<usize>)
    requires
        is_cycle(edges, walk),
    ensures
        is_deadlocked(edges, walk.to_set()),
        forall|k: int| 0 <= k < walk.len() ==> blocked_elements(edges).contains(#[trigger] walk[k]),
{
    let stuck = walk.to_set();
    assert forall|x: usize| stuck.contains(x) implies #[trigger] waits_within(edges, stuck, x) by {
        let k = choose|k: int| 0 <= k < walk.len() && walk[k] == x;
        let before = if k == 0 {
            walk.len() - 2
        } else {
            k - 1
        };
        assert(is_step(edges, walk, before));
        let i = choose|i: int| 0 <= i < edges.len() && edges[i] == (walk[before], walk[before + 1]);
        assert(edges[i].1 == x);
        assert(stuck.contains(walk[before]));
    }
    assert forall|k: int| 0 <= k < walk.len() implies blocked_elements(edges).contains(
        #[trigger] walk[k],
    ) by {
        assert(stuck.contains(walk[k]));
    }
}

/// A finite, non-empty deadlocked set holds a cycle: stepping from blocker to
/// blocker must come back to an element already seen.
pub proof fn lemma_deadlock_has_cycle(edges: Seq<(usize, usize)>, stuck: Set<usize>)
    requires
        is_deadlocked(edges, stuck),
        stuck.finite(),
        !stuck.is_empty(),
    ensures
        has_cycle(edges),
{
    let start = choose|x: usize| stuck.contains(x);
    let trail = Seq::new(stuck.len() + 1, |k: int| trace_back(edges, stuck, start, k as nat));
    assert forall|x: usize| trail.to_set().contains(x) implies stuck.contains(x) by {
        let k = choose|k: int| 0 <= k < trail.len() && trail[k] == x;
        lemma_trace_back(edges, stuck, start, k as nat);
    }
    if trail.no_duplicates() {
        trail.unique_seq_to_set();
        lemma_len_subset(trail.to_set(), stuck);
    }
    let (i, j) = choose|i: int, j: int|
        0 <= i < trail.len() && 0 <= j < trail.len() && i != j && trail[i] == trail[j];
    let (lo, hi) = if i < j {
        (i, j)
    } else {
        (j, i)
    };
    let walk = Seq::new((hi - lo + 1) as nat, |t: int| trail[hi - t]);
    assert forall|k: int| 0 <= k < walk.len() - 1 implies #[trigger] is_step(edges, walk, k) by {
        lemma_trace_back(edges, stuck, start, (hi - k - 1) as nat);
    }
    assert(is_cycle(edges, walk));
}

/// The blocked elements are themselves deadlocked, and all of them are
/// elements of the relation.
pub proof fn lemma_blocked_is_deadlocked(edges: Seq<(usize, usize)>)
    ensures
        is_deadlocked(edges, blocked_elements(edges)),
        blocked_elements(edges).subset_of(elements(edges)),
        blocked_elements(edges).finite(),
{
    let blocked = blocked_elements(edges);
    assert forall|x: usize| blocked.contains(x) implies #[trigger] waits_within(
        edges,
        blocked,
        x,
    ) by {
        let stuck = choose|stuck: Set<usize>| is_deadlocked(edges, stuck) && stuck.contains(x);
        assert(waits_within(edges, stuck, x));
        let i = choose|i: int|
            0 <= i < edges.len() && (#[trigger] edges[i]).1 == x && stuck.contains(edges[i].0);
        assert(blocked.contains(edges[i].0));
    }
    assert forall|x: usize| blocked.contains(x) implies elements(edges).contains(x) by {
        assert(waits_within(edges, blocked, x));
    }
    lemma_elements_finite(edges);
    lemma_len_subset(blocked, elements(edges));
}

/// A relation contains a cycle exactly when some element is blocked.
pub proof fn lemma_cycle_iff_blocked(edges: Seq<(usize, usize)>)
    ensures
        has_cycle(edges) <==> !blocked_elements(edges).is_empty(),
{
    if has_cycle(edges) {
        let walk = choose|walk: Seq<usize>| is_cycle(edges, walk);
        lemma_cycle_is_deadlocked(edges, walk);
        assert(blocked_elements(edges).contains(walk[0]));
    }
    if !blocked_elements(edges).is_empty() {
        lemma_blocked_is_deadlocked(edges);
        lemma_deadlock_has_cycle(edges, blocked_elements(edges));
    }
}

} // verus!
