//! Algorithm T: topological sorting by repeatedly placing an element that
//! waits for no predecessor.
use crate::chain::decrement_successors;
use crate::graph::{DependencyGraph, SortError};
use crate::order::{
    blocked_elements, has_cycle, is_deadlocked, is_topological_order, lemma_deadlock_has_cycle,
    lemma_order_excludes_cycle, precedes,
};
use crate::relation::{
    elements, fits, lemma_elements_finite, lemma_fits_prefix,
    lemma_occurrences_prefix, lemma_occurrences_step, lemma_pending_agrees,
    lemma_pending_positive, lemma_pending_release, lemma_successors_are_edges, occurrences,
    pending, successors, waits_within, CAPACITY,
};
use std::collections::HashSet;
use vstd::prelude::*;
use vstd::std_specs::hash::spec_hash_keys_iter;
use vstd::std_specs::iter::IteratorSpec;

verus! {

/// What a sort of `edges` may return. Edges that fit the table and contain no
/// cycle give a topological order; which one, among several, is left open.
/// Edges that fit and contain a cycle give the blocked elements. Edges that do
/// not fit give the position of the first edge that is too much.
pub open spec fn sorted(edges: Seq<(usize, usize)>, r: Result<Vec<usize>, SortError>) -> bool {
    match r {
        Ok(order) => {
            &&& fits(edges)
            &&& !has_cycle(edges)
            &&& is_topological_order(edges, order@)
        },
        Err(SortError::CapacityExceeded { edge }) => {
            &&& !fits(edges)
            &&& edge < edges.len()
            &&& fits(edges.take(edge as int))
            &&& !fits(edges.take(edge + 1))
        },
        Err(SortError::CycleDetected { blocked }) => {
            &&& fits(edges)
            &&& has_cycle(edges)
            &&& blocked@.no_duplicates()
            &&& blocked@.to_set() == blocked_elements(edges)
        },
        Err(SortError::OutOfRange { .. }) => false,
    }
}

/// Every placed successor of an edge stands after that edge's predecessor.
spec fn respects(edges: Seq<(usize, usize)>, placed: Seq<usize>) -> bool {
    forall|i: int, b: int|
        0 <= i < edges.len() && 0 <= b < placed.len() && #[trigger] placed[b] == (
        #[trigger] edges[i]).1 ==> exists|a: int| 0 <= a < b && placed[a] == edges[i].0
}

/// Looks through `remaining` for an element that waits for no predecessor.
pub fn find_ready(graph: &DependencyGraph, remaining: &HashSet<usize>) -> (found: Option<usize>)
    requires
        forall|x: usize| remaining@.contains(x) ==> x < CAPACITY,
    ensures
        match found {
            Some(element) => remaining@.contains(element) && graph.count(element) == 0,
            None => forall|x: usize| remaining@.contains(x) ==> graph.count(x) != 0,
        },
{
    broadcast use vstd::std_specs::hash::group_hash_axioms;

    proof {
        let keys = spec_hash_keys_iter(remaining).remaining();
        assert forall|x: usize| remaining@.contains(x) implies exists|k: int|
            0 <= k < keys.len() && *#[trigger] keys[k] == x by {
            assert(keys.unref().to_set().contains(x));
            let k = choose|k: int| 0 <= k < keys.unref().len() && keys.unref()[k] == x;
            assert(*keys[k] == x);
        }
        assert forall|k: int| 0 <= k < keys.len() implies remaining@.contains(
            *#[trigger] keys[k],
        ) by {
            assert(keys.unref()[k] == *keys[k]);
        }
    }
    for element in it: remaining.iter()
        invariant
            forall|x: usize| remaining@.contains(x) ==> x < CAPACITY,
            forall|x: usize|
                remaining@.contains(x) ==> exists|k: int|
                    0 <= k < it.seq().len() && *#[trigger] it.seq()[k] == x,
            forall|k: int| 0 <= k < it.seq().len() ==> remaining@.contains(*#[trigger] it.seq()[k]),
            forall|k: int| 0 <= k < it.index() ==> graph.count(*#[trigger] it.seq()[k]) != 0,
    {
        if graph.entry(*element).count == 0 {
            return Some(*element);
        }
    }
    None
}

/// The members of `set`, each once, in the order in which the set hands them out.
pub fn members(set: &HashSet<usize>) -> (list: Vec<usize>)
    ensures
        list@.no_duplicates(),
        list@.to_set() == set@,
{
    broadcast use vstd::std_specs::hash::group_hash_axioms;

    let mut list: Vec<usize> = Vec::with_capacity(set.len());
    proof {
        let keys = spec_hash_keys_iter(set).remaining();
        assert forall|x: usize| set@.contains(x) implies exists|k: int|
            0 <= k < keys.len() && *#[trigger] keys[k] == x by {
            assert(keys.unref().to_set().contains(x));
            let k = choose|k: int| 0 <= k < keys.unref().len() && keys.unref()[k] == x;
            assert(*keys[k] == x);
        }
        assert forall|k: int| 0 <= k < keys.len() implies set@.contains(*#[trigger] keys[k]) by {
            assert(keys.unref()[k] == *keys[k]);
        }
    }
    for element in it: set.iter()
        invariant
            forall|x: usize|
                set@.contains(x) ==> exists|k: int|
                    0 <= k < it.seq().len() && *#[trigger] it.seq()[k] == x,
            forall|k: int| 0 <= k < it.seq().len() ==> set@.contains(*#[trigger] it.seq()[k]),
            forall|a: int, b: int|
                0 <= a < b < it.seq().len() ==> *#[trigger] it.seq()[a] != *#[trigger] it.seq()[b],
            list.len() == it.index(),
            forall|k: int| 0 <= k < it.index() ==> #[trigger] list[k] == *it.seq()[k],
            list@.no_duplicates(),
            forall|k: int| 0 <= k < list.len() ==> set@.contains(#[trigger] list[k]),
            forall|x: usize|
                set@.contains(x) ==> list@.contains(x) || exists|k: int|
                    it.index() <= k < it.seq().len() && *#[trigger] it.seq()[k] == x,
    {
        proof {
            let grown = list@.push(*element);
            assert forall|x: usize| set@.contains(x) implies grown.contains(x) || exists|k: int|
                it.index() + 1 <= k < it.seq().len() && *#[trigger] it.seq()[k] == x by {
                if list@.contains(x) {
                    let k = choose|k: int| 0 <= k < list@.len() && list@[k] == x;
                    assert(grown[k] == x);
                } else {
                    let k = choose|k: int|
                        it.index() <= k < it.seq().len() && *#[trigger] it.seq()[k] == x;
                    if k == it.index() {
                        assert(grown[list@.len() as int] == x);
                    }
                }
            }
        }
        list.push(*element);
    }
    assert(list@.to_set() =~= set@);
    list
}

/// Sorts the elements named by `ordered_pairs` so that every pair's first
/// element comes before its second (Algorithm T). While elements remain, one
/// that waits for no predecessor is placed next and taken off the counts of its
/// successors; if none is found, the elements that remain are blocked by a cycle.
///
/// Among several elements that wait for nothing, the one that the set hands
/// out first is placed, so equal inputs may give different orders. No count is
/// ever found at zero when it is to be decremented: a successor on the chain of
/// the element being placed still counts that element.
pub fn toposort(ordered_pairs: &[(usize, usize)]) -> (r: Result<Vec<usize>, SortError>)
    ensures
        sorted(ordered_pairs@, r),
        r is Ok <==> fits(ordered_pairs@) && !has_cycle(ordered_pairs@),
        r matches Err(SortError::CycleDetected { .. }) <==> fits(ordered_pairs@) && has_cycle(
            ordered_pairs@,
        ),
        r matches Err(SortError::CapacityExceeded { .. }) <==> !fits(ordered_pairs@),
{
    broadcast use vstd::std_specs::hash::group_hash_axioms;

    let ghost edges = ordered_pairs@;
    let (mut graph, mut remaining) = match DependencyGraph::build(ordered_pairs) {
        Ok(built) => built,
        Err(refused) => {
            return Err(refused);
        },
    };
    proof {
        lemma_elements_finite(edges);
        crate::order::lemma_blocked_is_deadlocked(edges);
        assert forall|id: usize| id < CAPACITY implies #[trigger] graph.count(id) == pending(
            edges,
            remaining@,
            id,
        ) by {
            assert forall|i: int| 0 <= i < edges.len() implies Set::<usize>::full().contains(
                (#[trigger] edges[i]).0,
            ) == remaining@.contains(edges[i].0) by {}
            lemma_pending_agrees(edges, Set::full(), remaining@, id);
        }
    }
    let mut result: Vec<usize> = Vec::with_capacity(remaining.len());
    while remaining.len() > 0
        invariant
            edges == ordered_pairs@,
            fits(edges),
            remaining@.finite(),
            remaining@.subset_of(elements(edges)),
            graph.models(edges, remaining@),
            result@.no_duplicates(),
            forall|x: usize|
                elements(edges).contains(x) <==> remaining@.contains(x) || result@.contains(x),
            forall|x: usize| !(remaining@.contains(x) && result@.contains(x)),
            respects(edges, result@),
            blocked_elements(edges).subset_of(remaining@),
        decreases remaining@.len(),
    {
        let ghost live = remaining@;
        match find_ready(&graph, &remaining) {
            None => {
                let blocked = members(&remaining);
                proof {
                    assert forall|x: usize| live.contains(x) implies #[trigger] waits_within(
                        edges,
                        live,
                        x,
                    ) by {
                        assert(graph.count(x) == pending(edges, live, x));
                        lemma_pending_positive(edges, live, x);
                    }
                    assert(is_deadlocked(edges, live));
                    assert(!live.is_empty()) by {
                        if live.is_empty() {
                            assert(live =~= Set::empty());
                        }
                    }
                    lemma_deadlock_has_cycle(edges, live);
                    assert(blocked_elements(edges) =~= live);
                }
                return Err(SortError::CycleDetected { blocked });
            },
            Some(element) => {
                proof {
                    assert(graph.count(element) == pending(edges, live, element));
                    lemma_pending_positive(edges, live, element);
                    lemma_placing_respects(edges, live, result@, element);
                    lemma_ready_is_free(edges, live, element);
                }
                let ghost placed = result@;
                result.push(element);
                proof {
                    assert forall|x: usize| result@.contains(x) <==> placed.contains(x) || x
                        == element by {
                        if placed.contains(x) {
                            let k = choose|k: int| 0 <= k < placed.len() && placed[k] == x;
                            assert(result@[k] == x);
                        }
                        if x == element {
                            assert(result@[placed.len() as int] == x);
                        }
                        if result@.contains(x) {
                            let k = choose|k: int| 0 <= k < result@.len() && result@[k] == x;
                            if k < placed.len() {
                                assert(placed[k] == x);
                            }
                        }
                    }
                }
                let mut items_to_dec: Vec<usize> = Vec::new();
                decrement_successors(&graph.entry(element).top, &mut items_to_dec);
                assert(items_to_dec@ =~= successors(edges, element));
                let mut k: usize = 0;
                while k < items_to_dec.len()
                    invariant
                        fits(edges),
                        live.contains(element),
                        items_to_dec@ == successors(edges, element),
                        graph@.len() == CAPACITY,
                        k <= items_to_dec.len(),
                        forall|id: usize|
                            id < CAPACITY ==> (#[trigger] graph.count(id)) + occurrences(
                                items_to_dec@.take(k as int),
                                id,
                            ) == pending(edges, live, id) && graph.chain(id) == successors(
                                edges,
                                id,
                            ),
                    decreases items_to_dec.len() - k,
                {
                    let successor = items_to_dec[k];
                    proof {
                        lemma_successors_are_edges(edges, element, k as int);
                        let i = choose|i: int|
                            0 <= i < edges.len() && edges[i] == (element, successor);
                        assert(edges[i].1 < CAPACITY);
                        lemma_pending_release(edges, live, element, successor);
                        lemma_occurrences_prefix(items_to_dec@, k + 1, successor);
                        lemma_occurrences_step(items_to_dec@, k as int, successor);
                        assert(graph.count(successor) + occurrences(
                            items_to_dec@.take(k as int),
                            successor,
                        ) == pending(edges, live, successor));
                        assert forall|id: usize| id < CAPACITY implies occurrences(
                            items_to_dec@.take(k + 1),
                            id,
                        ) == occurrences(items_to_dec@.take(k as int), id) + if id == successor {
                            1nat
                        } else {
                            0nat
                        } by {
                            lemma_occurrences_step(items_to_dec@, k as int, id);
                        }
                    }
                    let ghost before = graph;
                    graph.release(successor);
                    proof {
                        assert forall|id: usize| id < CAPACITY implies (#[trigger] graph.count(
                            id,
                        )) + occurrences(items_to_dec@.take(k + 1), id) == pending(
                            edges,
                            live,
                            id,
                        ) && graph.chain(id) == successors(edges, id) by {
                            assert(before.count(id) + occurrences(
                                items_to_dec@.take(k as int),
                                id,
                            ) == pending(edges, live, id));
                        }
                    }
                    k += 1;
                }
                remaining.remove(&element);
                proof {
                    assert(items_to_dec@.take(items_to_dec.len() as int) =~= items_to_dec@);
                    assert forall|id: usize| id < CAPACITY implies #[trigger] graph.count(id)
                        == pending(edges, remaining@, id) by {
                        lemma_pending_release(edges, live, element, id);
                    }
                }
            },
        }
    }
    proof {
        assert(remaining@.is_empty()) by {
            if !remaining@.is_empty() {
                let x = choose|x: usize| remaining@.contains(x);
                vstd::set_lib::lemma_set_empty_equivalency_len(remaining@);
            }
        }
        assert(result@.to_set() =~= elements(edges));
        assert forall|i: int| 0 <= i < edges.len() implies precedes(
            result@,
            (#[trigger] edges[i]).0,
            edges[i].1,
        ) by {
            assert(elements(edges).contains(edges[i].1));
            let b = choose|b: int| 0 <= b < result@.len() && result@[b] == edges[i].1;
            assert(result@[b] == edges[i].1);
        }
        lemma_order_excludes_cycle(edges, result@);
    }
    Ok(result)
}

/// Placing an element that waits for no live predecessor keeps every placed
/// successor behind its predecessor.
proof fn lemma_placing_respects(
    edges: Seq<(usize, usize)>,
    live: Set<usize>,
    placed: Seq<usize>,
    element: usize,
)
    requires
        respects(edges, placed),
        !waits_within(edges, live, element),
        forall|x: usize| elements(edges).contains(x) <==> live.contains(x) || placed.contains(x),
    ensures
        respects(edges, placed.push(element)),
{
    let grown = placed.push(element);
    assert forall|i: int, b: int|
        0 <= i < edges.len() && 0 <= b < grown.len() && #[trigger] grown[b] == (
        #[trigger] edges[i]).1 implies exists|a: int| 0 <= a < b && grown[a] == edges[i].0 by {
        if b < placed.len() {
            assert(placed[b] == edges[i].1);
            let a = choose|a: int| 0 <= a < b && placed[a] == edges[i].0;
            assert(grown[a] == edges[i].0);
        } else {
            assert(!live.contains(edges[i].0));
            assert(elements(edges).contains(edges[i].0));
            let a = choose|a: int| 0 <= a < placed.len() && placed[a] == edges[i].0;
            assert(grown[a] == edges[i].0);
        }
    }
}

/// An element that waits for no live predecessor is not blocked, as long as
/// every blocked element is live.
proof fn lemma_ready_is_free(edges: Seq<(usize, usize)>, live: Set<usize>, element: usize)
    requires
        !waits_within(edges, live, element),
        blocked_elements(edges).subset_of(live),
    ensures
        !blocked_elements(edges).contains(element),
        blocked_elements(edges).subset_of(live.remove(element)),
{
    crate::order::lemma_blocked_is_deadlocked(edges);
    if blocked_elements(edges).contains(element) {
        assert(waits_within(edges, blocked_elements(edges), element));
        let i = choose|i: int|
            0 <= i < edges.len() && (#[trigger] edges[i]).1 == element && blocked_elements(
                edges,
            ).contains(edges[i].0);
        assert(live.contains(edges[i].0));
    }
}

/// Sorting the same edges twice gives two outcomes of the same kind. Where the
/// edges can be ordered, both are topological orders of the same elements,
/// though not necessarily the same order; where they cannot, both name the
/// same first edge that does not fit, or the same blocked elements.
pub proof fn lemma_sorts_agree(
    edges: Seq<(usize, usize)>,
    first: Result<Vec<usize>, SortError>,
    second: Result<Vec<usize>, SortError>,
)
    requires
        sorted(edges, first),
        sorted(edges, second),
    ensures
        first is Ok <==> second is Ok,
        first matches Ok(order) ==> is_topological_order(edges, order@),
        second matches Ok(order) ==> is_topological_order(edges, order@),
        first matches Ok(one) ==> second matches Ok(other) && one@.to_set() == other@.to_set()
            && one@.len() == other@.len(),
        first matches Err(SortError::CapacityExceeded { edge }) ==> second == first,
        first matches Err(SortError::CycleDetected { blocked: one }) ==> second matches Err(
            SortError::CycleDetected { blocked: other },
        ) && one@.to_set() == other@.to_set() && one@.len() == other@.len(),
{
    match (first, second) {
        (Ok(one), Ok(other)) => {
            one@.unique_seq_to_set();
            other@.unique_seq_to_set();
        },
        (
            Err(SortError::CapacityExceeded { edge: a }),
            Err(SortError::CapacityExceeded { edge: b }),
        ) => {
            if a < b {
                lemma_fits_prefix(edges.take(b as int), a + 1);
                assert(edges.take(b as int).take(a + 1) =~= edges.take(a + 1));
            }
            if b < a {
                lemma_fits_prefix(edges.take(a as int), b + 1);
                assert(edges.take(a as int).take(b + 1) =~= edges.take(b + 1));
            }
        },
        (
            Err(SortError::CycleDetected { blocked: one }),
            Err(SortError::CycleDetected { blocked: other }),
        ) => {
            one@.unique_seq_to_set();
            other@.unique_seq_to_set();
        },
        _ => {},
    }
}

} // verus!
