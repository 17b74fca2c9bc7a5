//! Successor chains: the singly linked lists that hang off each table entry.
use vstd::prelude::*;

verus! {

/// One link of a successor chain.
pub struct Successor {
    pub successor_value: usize,
    pub next: Option<Box<Successor>>,
}

/// The values held by a chain, head first.
pub open spec fn chain_values(top: Option<Box<Successor>>) -> Seq<usize>
    decreases top,
{
    match top {
        Some(node) => seq![node.successor_value] + chain_values(node.next),
        None => Seq::empty(),
    }
}

/// Follows the links until the empty slot at the end and stores `value` there
/// (step T3 of Algorithm T). The values already in the chain keep their order.
pub fn add_to_end(top: &mut Option<Box<Successor>>, value: usize)
    ensures
        chain_values(*final(top)) == chain_values(*old(top)).push(value),
    decreases *old(top),
{
    match top.as_mut() {
        Some(v) => add_to_end(&mut v.next, value),
        None => {
            *top = Some(Box::new(Successor { successor_value: value, next: None }));
        },
    }
}

/// Walks the chain from its head and appends every value, in chain order, to
/// `items_to_dec`: the successors whose counts are to be decremented. The chain
/// itself is left as it is.
pub fn decrement_successors(next: &Option<Box<Successor>>, items_to_dec: &mut Vec<usize>)
    ensures
        final(items_to_dec)@ == old(items_to_dec)@ + chain_values(*next),
    decreases *next,
{
    match next {
        Some(v) => {
            items_to_dec.push(v.successor_value);
            decrement_successors(&v.next, items_to_dec);
        },
        None => {},
    }
}

} // verus!
