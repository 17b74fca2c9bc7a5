//! The dependency graph: a table with one entry per identifier, each holding
//! the count of predecessors still waited for and the chain of successors.
use crate::chain::{add_to_end, chain_values, decrement_successors, Successor};
use crate::relation::{
    elements, fits, ids_in_range, in_degree, lemma_elements_push, lemma_pending_bound,
    lemma_pending_step, lemma_successors_step, pending, successors, CAPACITY,
};
use std::collections::HashSet;
use vstd::prelude::*;

verus! {

/// Why a relation could not be tabulated, queried or ordered.
#[derive(Debug, PartialEq, Eq)]
pub enum SortError {
    /// The table cannot take the edges. `edge` is the position of the first edge
    /// with which they no longer fit.
    CapacityExceeded { edge: usize },
    /// A query named an identifier that has no slot in the table.
    OutOfRange { identifier: usize },
    /// The relation is no partial order. `blocked` holds every element that can
    /// never be placed, each once.
    CycleDetected { blocked: Vec<usize> },
}

/// A table entry: the COUNT and TOP fields of Algorithm T.
pub struct CountTop {
    pub count: usize,
    pub top: Option<Box<Successor>>,
}

impl View for CountTop {
    type V = (usize, Seq<usize>);

    /// The count, and the values of the chain from its head.
    open spec fn view(&self) -> (usize, Seq<usize>) {
        (self.count, chain_values(self.top))
    }
}

/// An entry with no predecessors and no successors. The argument is the slot's
/// number, which an empty entry does not depend on.
pub fn empty_counttop(_unused: usize) -> (entry: CountTop)
    ensures
        entry.count == 0,
        entry.top is None,
{
    CountTop { count: 0, top: None }
}

/// The table of `CAPACITY` entries.
pub struct DependencyGraph {
    table: Vec<CountTop>,
}

impl View for DependencyGraph {
    type V = Seq<(usize, Seq<usize>)>;

    /// The entries by identifier, each as its count and the values of its chain.
    closed spec fn view(&self) -> Seq<(usize, Seq<usize>)> {
        Seq::new(self.table@.len(), |id: int| self.table@[id]@)
    }
}

impl DependencyGraph {
    #[verifier::type_invariant]
    spec fn well_formed(self) -> bool {
        self.table.len() == CAPACITY
    }

    /// The count held for `id`.
    pub open spec fn count(self, id: usize) -> usize {
        self@[id as int].0
    }

    /// The successors held for `id`, in chain order.
    pub open spec fn chain(self, id: usize) -> Seq<usize> {
        self@[id as int].1
    }

    /// The table is the one that `edges` give once every element outside `live`
    /// has been placed: each count is the number of predecessors still in
    /// `live`, and each chain lists the successors in edge order.
    pub open spec fn models(self, edges: Seq<(usize, usize)>, live: Set<usize>) -> bool {
        &&& self@.len() == CAPACITY
        &&& forall|id: usize|
            id < CAPACITY ==> #[trigger] self.count(id) == pending(edges, live, id) && self.chain(
                id,
            ) == successors(edges, id)
    }

    /// Tabulates the edges in input order: each edge adds one to its successor's
    /// count and appends the successor to its predecessor's chain. Returns the
    /// table together with the distinct elements.
    pub fn build(edges: &[(usize, usize)]) -> (r: Result<
        (DependencyGraph, HashSet<usize>),
        SortError,
    >)
        ensures
            r is Ok <==> fits(edges@),
            match r {
                Ok((graph, distinct)) => {
                    &&& graph.models(edges@, Set::full())
                    &&& distinct@ == elements(edges@)
                },
                Err(SortError::CapacityExceeded { edge }) => {
                    &&& edge < edges.len()
                    &&& fits(edges@.take(edge as int))
                    &&& !fits(edges@.take(edge + 1))
                },
                Err(_) => false,
            },
    {
        broadcast use vstd::std_specs::hash::group_hash_axioms;

        let mut table: Vec<CountTop> = Vec::with_capacity(CAPACITY);
        let mut slot: usize = 0;
        while slot < CAPACITY
            invariant
                slot <= CAPACITY,
                table.len() == slot,
                forall|id: int|
                    0 <= id < slot ==> (#[trigger] table[id]).count == 0 && table[id].top is None,
            decreases CAPACITY - slot,
        {
            table.push(empty_counttop(slot));
            slot += 1;
        }
        let mut distinct: HashSet<usize> = HashSet::new();
        assert(elements(edges@.take(0)) =~= Set::empty());
        for i in 0..edges.len()
            invariant
                table.len() == CAPACITY,
                fits(edges@.take(i as int)),
                distinct@ == elements(edges@.take(i as int)),
                forall|id: usize|
                    id < CAPACITY ==> (#[trigger] table[id as int]).count == in_degree(
                        edges@.take(i as int),
                        id,
                    ) && chain_values(table[id as int].top) == successors(
                        edges@.take(i as int),
                        id,
                    ),
        {
            let (p, s) = edges[i];
            proof {
                lemma_elements_push(edges@.take(i as int), edges@[i as int]);
                assert(edges@.take(i as int).push(edges@[i as int]) =~= edges@.take(i + 1));
            }
            if p >= CAPACITY || s >= CAPACITY {
                assert(!ids_in_range(edges@.take(i + 1))) by {
                    assert(edges@.take(i + 1)[i as int] == edges@[i as int]);
                }
                proof {
                    if fits(edges@) {
                        crate::relation::lemma_fits_prefix(edges@, i + 1);
                    }
                }
                return Err(SortError::CapacityExceeded { edge: i });
            }
            distinct.insert(p);
            distinct.insert(s);
            if distinct.len() >= CAPACITY {
                proof {
                    if fits(edges@) {
                        crate::relation::lemma_fits_prefix(edges@, i + 1);
                    }
                }
                return Err(SortError::CapacityExceeded { edge: i });
            }
            assert(fits(edges@.take(i + 1))) by {
                assert forall|k: int| 0 <= k < edges@.take(i + 1).len() implies (
                #[trigger] edges@.take(i + 1)[k]).0 < CAPACITY && edges@.take(i + 1)[k].1
                    < CAPACITY by {
                    if k < i {
                        assert(edges@.take(i as int)[k] == edges@.take(i + 1)[k]);
                    }
                }
            }
            proof {
                lemma_pending_bound(edges@.take(i as int), Set::full(), s);
                assert forall|id: usize| id < CAPACITY implies #[trigger] in_degree(
                    edges@.take(i + 1),
                    id,
                ) == in_degree(edges@.take(i as int), id) + if id == s {
                    1nat
                } else {
                    0nat
                } by {
                    lemma_pending_step(edges@, i as int, Set::full(), id);
                }
                assert forall|id: usize| id < CAPACITY implies #[trigger] successors(
                    edges@.take(i + 1),
                    id,
                ) == if id == p {
                    successors(edges@.take(i as int), id).push(s)
                } else {
                    successors(edges@.take(i as int), id)
                } by {
                    lemma_successors_step(edges@, i as int, id);
                }
            }
            table[s].count += 1;
            add_to_end(&mut table[p].top, s);
        }
        assert(edges@.take(edges.len() as int) =~= edges@);
        let graph = DependencyGraph { table };
        assert(graph.models(edges@, Set::full()));
        Ok((graph, distinct))
    }

    /// The entry in the slot of `id`.
    pub fn entry(&self, id: usize) -> (entry: &CountTop)
        requires
            id < CAPACITY,
        ensures
            entry@ == self@[id as int],
    {
        proof {
            use_type_invariant(self);
        }
        &self.table[id]
    }

    /// The count of predecessors that `id` still waits for.
    pub fn in_degree(&self, id: usize) -> (r: Result<usize, SortError>)
        ensures
            match r {
                Ok(count) => id < CAPACITY && count == self.count(id),
                Err(SortError::OutOfRange { identifier }) => id >= CAPACITY && identifier == id,
                Err(_) => false,
            },
    {
        if id < CAPACITY {
            Ok(self.entry(id).count)
        } else {
            Err(SortError::OutOfRange { identifier: id })
        }
    }

    /// The immediate successors of `id`, in the order in which their edges were given.
    pub fn successors(&self, id: usize) -> (r: Result<Vec<usize>, SortError>)
        ensures
            match r {
                Ok(list) => id < CAPACITY && list@ == self.chain(id),
                Err(SortError::OutOfRange { identifier }) => id >= CAPACITY && identifier == id,
                Err(_) => false,
            },
    {
        if id < CAPACITY {
            let mut list: Vec<usize> = Vec::new();
            decrement_successors(&self.entry(id).top, &mut list);
            Ok(list)
        } else {
            Err(SortError::OutOfRange { identifier: id })
        }
    }

    /// Takes one satisfied predecessor off the count of `id`. The chains stay as
    /// they are. A count of zero has nothing to take off: the caller shows that
    /// a predecessor is still counted.
    pub fn release(&mut self, id: usize)
        requires
            id < CAPACITY,
            old(self).count(id) > 0,
        ensures
            final(self)@ == old(self)@.update(
                id as int,
                ((old(self).count(id) - 1) as usize, old(self).chain(id)),
            ),
    {
        proof {
            use_type_invariant(&*self);
        }
        self.table[id].count -= 1;
    }
}

} // verus!
