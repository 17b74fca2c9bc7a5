//! The mathematics of a dependency relation given as a list of edges: which
//! elements it names, how many predecessors an element still waits for, which
//! successors it has, and what it means to order the elements or to be stuck.
use vstd::prelude::*;
use vstd::set_lib::lemma_len_subset;

verus! {

/// Number of slots in the table: identifiers run from 0 up to, not including, this.
pub const CAPACITY: usize = 200;

/// The distinct elements: every identifier that occurs in some edge, on either side.
pub open spec fn elements(edges: Seq<(usize, usize)>) -> Set<usize> {
    Set::new(
        |x: usize| exists|i: int| 0 <= i < edges.len() && (edges[i].0 == x || edges[i].1 == x),
    )
}

/// How many edges lead into `x` from a predecessor that is still in `live`.
/// Duplicate edges count once each.
pub open spec fn pending(edges: Seq<(usize, usize)>, live: Set<usize>, x: usize) -> nat
    decreases edges.len(),
{
    if edges.len() == 0 {
        0
    } else {
        let rest = pending(edges.drop_last(), live, x);
        if edges.last().1 == x && live.contains(edges.last().0) {
            rest + 1
        } else {
            rest
        }
    }
}

/// Some edge leads into `x` from a member of `live`.
pub open spec fn waits_within(edges: Seq<(usize, usize)>, live: Set<usize>, x: usize) -> bool {
    exists|i: int|
        0 <= i < edges.len() && (#[trigger] edges[i]).1 == x && live.contains(edges[i].0)
}

/// The in-degree of `x`: how many edges have `x` as their successor.
pub open spec fn in_degree(edges: Seq<(usize, usize)>, x: usize) -> nat {
    pending(edges, Set::full(), x)
}

/// The immediate successors of `p`, one per edge that leaves `p`, in edge order.
pub open spec fn successors(edges: Seq<(usize, usize)>, p: usize) -> Seq<usize>
    decreases edges.len(),
{
    if edges.len() == 0 {
        Seq::empty()
    } else {
        let rest = successors(edges.drop_last(), p);
        if edges.last().0 == p {
            rest.push(edges.last().1)
        } else {
            rest
        }
    }
}

/// How often `x` occurs in `s`.
pub open spec fn occurrences(s: Seq<usize>, x: usize) -> nat
    decreases s.len(),
{
    if s.len() == 0 {
        0
    } else {
        occurrences(s.drop_last(), x) + if s.last() == x {
            1nat
        } else {
            0nat
        }
    }
}

/// Every identifier in every edge has a slot in the table.
pub open spec fn ids_in_range(edges: Seq<(usize, usize)>) -> bool {
    forall|i: int|
        0 <= i < edges.len() ==> (#[trigger] edges[i]).0 < CAPACITY && edges[i].1 < CAPACITY
}

/// The table can take these edges: every identifier has a slot, and fewer than
/// `CAPACITY` distinct elements are named.
pub open spec fn fits(edges: Seq<(usize, usize)>) -> bool {
    &&& ids_in_range(edges)
    &&& elements(edges).len() < CAPACITY
}

/// What the edge at position `n` adds to the count of pending predecessors.
pub proof fn lemma_pending_step(edges: Seq<(usize, usize)>, n: int, live: Set<usize>, x: usize)
    requires
        0 <= n < edges.len(),
    ensures
        pending(edges.take(n + 1), live, x) == pending(edges.take(n), live, x) + if edges[n].1 == x
            && live.contains(edges[n].0) {
            1nat
        } else {
            0nat
        },
{
    assert(edges.take(n + 1).drop_last() =~= edges.take(n));
}

/// What the edge at position `n` adds to the successors of `p`.
pub proof fn lemma_successors_step(edges: Seq<(usize, usize)>, n: int, p: usize)
    requires
        0 <= n < edges.len(),
    ensures
        successors(edges.take(n + 1), p) == if edges[n].0 == p {
            successors(edges.take(n), p).push(edges[n].1)
        } else {
            successors(edges.take(n), p)
        },
{
    assert(edges.take(n + 1).drop_last() =~= edges.take(n));
}

/// No element waits for more predecessors than there are edges.
pub proof fn lemma_pending_bound(edges: Seq<(usize, usize)>, live: Set<usize>, x: usize)
    ensures
        pending(edges, live, x) <= edges.len(),
    decreases edges.len(),
{
    if edges.len() > 0 {
        lemma_pending_bound(edges.drop_last(), live, x);
    }
}

/// Adding an edge adds its two ends to the distinct elements.
pub proof fn lemma_elements_push(edges: Seq<(usize, usize)>, e: (usize, usize))
    ensures
        elements(edges.push(e)) == elements(edges).insert(e.0).insert(e.1),
{
    let grown = edges.push(e);
    assert forall|x: usize| elements(grown).contains(x) implies elements(edges).insert(e.0).insert(
        e.1,
    ).contains(x) by {
        let i = choose|i: int| 0 <= i < grown.len() && (grown[i].0 == x || grown[i].1 == x);
        if i < edges.len() {
            assert(edges[i] == grown[i]);
        }
    }
    assert forall|x: usize| elements(edges).insert(e.0).insert(e.1).contains(x) implies elements(
        grown,
    ).contains(x) by {
        if elements(edges).contains(x) {
            let i = choose|i: int| 0 <= i < edges.len() && (edges[i].0 == x || edges[i].1 == x);
            assert(grown[i] == edges[i]);
        } else {
            assert(grown[edges.len() as int] == e);
        }
    }
    assert(elements(grown) =~= elements(edges).insert(e.0).insert(e.1));
}

/// The distinct elements of a finite edge list are finitely many, at most two per edge.
pub proof fn lemma_elements_finite(edges: Seq<(usize, usize)>)
    ensures
        elements(edges).finite(),
        elements(edges).len() <= 2 * edges.len(),
    decreases edges.len(),
{
    if edges.len() == 0 {
        assert(elements(edges) =~= Set::empty());
    } else {
        lemma_elements_finite(edges.drop_last());
        lemma_elements_push(edges.drop_last(), edges.last());
        assert(edges.drop_last().push(edges.last()) =~= edges);
    }
}

/// A prefix of an edge list names no element that the whole list does not name.
pub proof fn lemma_elements_prefix(edges: Seq<(usize, usize)>, n: int)
    requires
        0 <= n <= edges.len(),
    ensures
        elements(edges.take(n)).subset_of(elements(edges)),
        elements(edges.take(n)).len() <= elements(edges).len(),
{
    let prefix = edges.take(n);
    assert forall|x: usize| elements(prefix).contains(x) implies elements(edges).contains(x) by {
        let i = choose|i: int| 0 <= i < prefix.len() && (prefix[i].0 == x || prefix[i].1 == x);
        assert(prefix[i] == edges[i]);
    }
    lemma_elements_finite(edges);
    lemma_len_subset(elements(prefix), elements(edges));
}

/// What fits the table still fits when edges are taken off its end.
pub proof fn lemma_fits_prefix(edges: Seq<(usize, usize)>, n: int)
    requires
        0 <= n <= edges.len(),
        fits(edges),
    ensures
        fits(edges.take(n)),
{
    lemma_elements_prefix(edges, n);
    assert forall|i: int| 0 <= i < edges.take(n).len() implies (#[trigger] edges.take(n)[i]).0
        < CAPACITY && edges.take(n)[i].1 < CAPACITY by {
        assert(edges.take(n)[i] == edges[i]);
    }
}

/// The count of pending predecessors looks at `live` only where an edge begins.
pub proof fn lemma_pending_agrees(
    edges: Seq<(usize, usize)>,
    live: Set<usize>,
    other: Set<usize>,
    x: usize,
)
    requires
        forall|i: int|
            0 <= i < edges.len() ==> live.contains((#[trigger] edges[i]).0) == other.contains(
                edges[i].0,
            ),
    ensures
        pending(edges, live, x) == pending(edges, other, x),
    decreases edges.len(),
{
    if edges.len() > 0 {
        let rest = edges.drop_last();
        assert forall|i: int| 0 <= i < rest.len() implies live.contains((#[trigger] rest[i]).0)
            == other.contains(rest[i].0) by {
            assert(rest[i] == edges[i]);
        }
        lemma_pending_agrees(rest, live, other, x);
        assert(edges.last() == edges[edges.len() - 1]);
    }
}

/// An element has a pending predecessor exactly when an edge leads into it
/// from a live element.
pub proof fn lemma_pending_positive(edges: Seq<(usize, usize)>, live: Set<usize>, x: usize)
    ensures
        pending(edges, live, x) > 0 <==> waits_within(edges, live, x),
    decreases edges.len(),
{
    if edges.len() > 0 {
        let rest = edges.drop_last();
        lemma_pending_positive(rest, live, x);
        if waits_within(rest, live, x) {
            let i = choose|i: int|
                0 <= i < rest.len() && (#[trigger] rest[i]).1 == x && live.contains(rest[i].0);
            assert(edges[i] == rest[i]);
        }
        if waits_within(edges, live, x) {
            let i = choose|i: int|
                0 <= i < edges.len() && (#[trigger] edges[i]).1 == x && live.contains(edges[i].0);
            if i < rest.len() {
                assert(rest[i] == edges[i]);
            }
        }
        if edges.last().1 == x && live.contains(edges.last().0) {
            assert(edges[edges.len() - 1] == edges.last());
        }
    }
}

/// What one more value adds to the count of occurrences.
pub proof fn lemma_occurrences_step(s: Seq<usize>, n: int, x: usize)
    requires
        0 <= n < s.len(),
    ensures
        occurrences(s.take(n + 1), x) == occurrences(s.take(n), x) + if s[n] == x {
            1nat
        } else {
            0nat
        },
{
    assert(s.take(n + 1).drop_last() =~= s.take(n));
}

/// A prefix holds a value no more often than the whole sequence.
pub proof fn lemma_occurrences_prefix(s: Seq<usize>, n: int, x: usize)
    requires
        0 <= n <= s.len(),
    ensures
        occurrences(s.take(n), x) <= occurrences(s, x),
    decreases s.len() - n,
{
    if n < s.len() {
        lemma_occurrences_step(s, n, x);
        lemma_occurrences_prefix(s, n + 1, x);
    } else {
        assert(s.take(n) =~= s);
    }
}

/// When `e` leaves the live elements, each element is relieved of one pending
/// predecessor for every time it occurs among the successors of `e`.
pub proof fn lemma_pending_release(
    edges: Seq<(usize, usize)>,
    live: Set<usize>,
    e: usize,
    x: usize,
)
    requires
        live.contains(e),
    ensures
        pending(edges, live, x) == pending(edges, live.remove(e), x) + occurrences(
            successors(edges, e),
            x,
        ),
    decreases edges.len(),
{
    if edges.len() > 0 {
        let rest = edges.drop_last();
        lemma_pending_release(rest, live, e, x);
        if edges.last().0 == e {
            assert(successors(rest, e).push(edges.last().1).drop_last() =~= successors(rest, e));
        }
    }
}

/// Every successor of `p` is the far end of an edge that leaves `p`.
pub proof fn lemma_successors_are_edges(edges: Seq<(usize, usize)>, p: usize, k: int)
    requires
        0 <= k < successors(edges, p).len(),
    ensures
        edges.contains((p, successors(edges, p)[k])),
    decreases edges.len(),
{
    if edges.len() > 0 {
        let rest = edges.drop_last();
        if edges.last().0 == p && k == successors(rest, p).len() {
            assert(edges[edges.len() - 1] == (p, successors(edges, p)[k]));
        } else {
            lemma_successors_are_edges(rest, p, k);
            let i = choose|i: int| 0 <= i < rest.len() && rest[i] == (p, successors(rest, p)[k]);
            assert(edges[i] == rest[i]);
        }
    }
}

/// Duplicate edges count: giving the edge `(p, s)` twice more raises the
/// in-degree of `s` by two and puts `s` twice more on the chain of `p`, so
/// that placing `p` relieves `s` twice.
pub proof fn lemma_duplicate_edge(edges: Seq<(usize, usize)>, p: usize, s: usize)
    ensures
        in_degree(edges.push((p, s)).push((p, s)), s) == in_degree(edges, s) + 2,
        successors(edges.push((p, s)).push((p, s)), p) == successors(edges, p).push(s).push(s),
        occurrences(successors(edges.push((p, s)).push((p, s)), p), s) == occurrences(
            successors(edges, p),
            s,
        ) + 2,
{
    let once = edges.push((p, s));
    let twice = once.push((p, s));
    assert(once.drop_last() =~= edges);
    assert(twice.drop_last() =~= once);
    assert(in_degree(once, s) == in_degree(edges, s) + 1);
    assert(in_degree(twice, s) == in_degree(once, s) + 1);
    let chain = successors(edges, p);
    assert(successors(once, p) == chain.push(s));
    assert(successors(twice, p) == chain.push(s).push(s));
    assert(chain.push(s).drop_last() =~= chain);
    assert(chain.push(s).push(s).drop_last() =~= chain.push(s));
    assert(occurrences(chain.push(s), s) == occurrences(chain, s) + 1);
}

} // verus!
