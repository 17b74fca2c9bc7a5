use std::collections::HashSet;
use taocp::chain::{add_to_end, decrement_successors, Successor};
use taocp::graph::{empty_counttop, DependencyGraph, SortError};
use taocp::relation::CAPACITY;
use taocp::toposort::{find_ready, members, toposort};

fn position(order: &[usize], element: usize) -> usize {
    order.iter().position(|&x| x == element).expect("element is in the order")
}

fn assert_valid_order(edges: &[(usize, usize)], order: &[usize]) {
    let mut named: Vec<usize> = Vec::new();
    for &(p, s) in edges {
        named.push(p);
        named.push(s);
    }
    named.sort();
    named.dedup();
    let mut sorted = order.to_vec();
    sorted.sort();
    assert_eq!(sorted, named);
    for &(p, s) in edges {
        assert!(position(order, p) < position(order, s));
    }
}

fn sorted_copy(list: &[usize]) -> Vec<usize> {
    let mut copy = list.to_vec();
    copy.sort();
    copy
}

fn classic_edges() -> Vec<(usize, usize)> {
    vec![(9, 2), (3, 7), (7, 5), (5, 8), (8, 6), (4, 6), (1, 3), (7, 4), (9, 5), (2, 8)]
}

#[test]
fn chain_appends_at_the_tail() {
    let mut top: Option<Box<Successor>> = None;
    add_to_end(&mut top, 7);
    add_to_end(&mut top, 3);
    add_to_end(&mut top, 7);
    let head = top.as_ref().unwrap();
    assert_eq!(head.successor_value, 7);
    let second = head.next.as_ref().unwrap();
    assert_eq!(second.successor_value, 3);
    let third = second.next.as_ref().unwrap();
    assert_eq!(third.successor_value, 7);
    assert!(third.next.is_none());
}

#[test]
fn chain_traversal_appends_in_chain_order() {
    let mut top: Option<Box<Successor>> = None;
    add_to_end(&mut top, 4);
    add_to_end(&mut top, 5);
    let mut items = vec![1];
    decrement_successors(&top, &mut items);
    assert_eq!(items, vec![1, 4, 5]);
    decrement_successors(&top, &mut items);
    assert_eq!(items, vec![1, 4, 5, 4, 5]);
}

#[test]
fn chain_traversal_of_empty_chain_adds_nothing() {
    let top: Option<Box<Successor>> = None;
    let mut items = vec![8, 9];
    decrement_successors(&top, &mut items);
    assert_eq!(items, vec![8, 9]);
}

#[test]
fn empty_entry_has_no_count_and_no_chain() {
    let entry = empty_counttop(17);
    assert_eq!(entry.count, 0);
    assert!(entry.top.is_none());
}

#[test]
fn build_counts_predecessors_and_chains_successors() {
    let edges = classic_edges();
    let (graph, distinct) = DependencyGraph::build(&edges).unwrap();
    let expected: HashSet<usize> = (1..=9).collect();
    assert_eq!(distinct, expected);
    let counts: Vec<usize> = (0..10).map(|id| graph.in_degree(id).unwrap()).collect();
    assert_eq!(counts, vec![0, 0, 1, 1, 1, 2, 2, 1, 2, 0]);
    assert_eq!(graph.successors(9).unwrap(), vec![2, 5]);
    assert_eq!(graph.successors(7).unwrap(), vec![5, 4]);
    assert_eq!(graph.successors(6).unwrap(), Vec::<usize>::new());
    assert_eq!(graph.successors(0).unwrap(), Vec::<usize>::new());
    assert_eq!(graph.entry(5).count, 2);
}

#[test]
fn build_of_nothing_is_an_empty_table() {
    let (graph, distinct) = DependencyGraph::build(&[]).unwrap();
    assert!(distinct.is_empty());
    for id in 0..CAPACITY {
        assert_eq!(graph.in_degree(id).unwrap(), 0);
        assert!(graph.successors(id).unwrap().is_empty());
    }
}

#[test]
fn queries_outside_the_table_are_out_of_range() {
    let (graph, _) = DependencyGraph::build(&[(1, 2)]).unwrap();
    assert_eq!(graph.in_degree(199).unwrap(), 0);
    assert_eq!(graph.in_degree(200), Err(SortError::OutOfRange { identifier: 200 }));
    assert_eq!(graph.successors(200), Err(SortError::OutOfRange { identifier: 200 }));
    assert_eq!(
        graph.in_degree(usize::MAX),
        Err(SortError::OutOfRange { identifier: usize::MAX })
    );
    assert_eq!(graph.successors(4711), Err(SortError::OutOfRange { identifier: 4711 }));
}

#[test]
fn identifier_beyond_the_table_exceeds_capacity() {
    assert_eq!(
        DependencyGraph::build(&[(1, 2), (3, 200), (4, 5)]).err(),
        Some(SortError::CapacityExceeded { edge: 1 })
    );
    assert_eq!(
        DependencyGraph::build(&[(200, 1)]).err(),
        Some(SortError::CapacityExceeded { edge: 0 })
    );
    assert_eq!(
        toposort(&[(0, 1), (1, 2), (2, usize::MAX)]),
        Err(SortError::CapacityExceeded { edge: 2 })
    );
    assert!(DependencyGraph::build(&[(199, 0)]).is_ok());
}

#[test]
fn two_hundred_distinct_elements_exceed_capacity() {
    let full: Vec<(usize, usize)> = (0..100).map(|k| (2 * k, 2 * k + 1)).collect();
    assert_eq!(toposort(&full), Err(SortError::CapacityExceeded { edge: 99 }));
    assert_eq!(
        DependencyGraph::build(&full).err(),
        Some(SortError::CapacityExceeded { edge: 99 })
    );
    let mut most: Vec<(usize, usize)> = (0..99).map(|k| (2 * k, 2 * k + 1)).collect();
    most.push((197, 198));
    let order = toposort(&most).unwrap();
    assert_eq!(order.len(), 199);
    assert_valid_order(&most, &order);
}

#[test]
fn release_takes_one_off_the_count() {
    let (mut graph, _) = DependencyGraph::build(&[(1, 3), (2, 3), (1, 2)]).unwrap();
    assert_eq!(graph.in_degree(3).unwrap(), 2);
    graph.release(3);
    assert_eq!(graph.in_degree(3).unwrap(), 1);
    assert_eq!(graph.in_degree(2).unwrap(), 1);
    assert_eq!(graph.successors(1).unwrap(), vec![3, 2]);
    graph.release(3);
    assert_eq!(graph.in_degree(3).unwrap(), 0);
}

#[test]
fn find_ready_picks_an_element_without_predecessors() {
    let edges = [(1, 2), (1, 3), (4, 3)];
    let (graph, distinct) = DependencyGraph::build(&edges).unwrap();
    let found = find_ready(&graph, &distinct).unwrap();
    assert!(found == 1 || found == 4);
    let waiting: HashSet<usize> = [2, 3].into_iter().collect();
    assert_eq!(find_ready(&graph, &waiting), None);
    let nothing: HashSet<usize> = HashSet::new();
    assert_eq!(find_ready(&graph, &nothing), None);
}

#[test]
fn members_lists_each_element_once() {
    let set: HashSet<usize> = [5, 1, 9, 1, 5].into_iter().collect();
    assert_eq!(sorted_copy(&members(&set)), vec![1, 5, 9]);
    assert!(members(&HashSet::new()).is_empty());
}

#[test]
fn empty_edge_list_gives_empty_order() {
    assert_eq!(toposort(&[]), Ok(vec![]));
}

#[test]
fn single_edge_is_ordered() {
    assert_eq!(toposort(&[(3, 1)]), Ok(vec![3, 1]));
}

#[test]
fn chain_of_edges_has_one_order() {
    assert_eq!(toposort(&[(3, 4), (1, 2), (2, 3), (0, 1)]), Ok(vec![0, 1, 2, 3, 4]));
}

#[test]
fn self_loop_is_a_cycle() {
    assert_eq!(toposort(&[(1, 1)]), Err(SortError::CycleDetected { blocked: vec![1] }));
}

#[test]
fn three_cycle_is_detected() {
    match toposort(&[(1, 2), (2, 3), (3, 1)]) {
        Err(SortError::CycleDetected { blocked }) => {
            assert_eq!(sorted_copy(&blocked), vec![1, 2, 3]);
        }
        other => panic!("expected a cycle, got {:?}", other),
    }
}

#[test]
fn blocked_elements_are_the_cycle_and_what_follows_it() {
    let edges = [(0, 1), (1, 2), (2, 1), (2, 3), (3, 4), (5, 6), (0, 5)];
    match toposort(&edges) {
        Err(SortError::CycleDetected { blocked }) => {
            assert_eq!(sorted_copy(&blocked), vec![1, 2, 3, 4]);
        }
        other => panic!("expected a cycle, got {:?}", other),
    }
}

#[test]
fn classic_example_is_ordered() {
    let edges = classic_edges();
    let order = toposort(&edges).unwrap();
    assert_eq!(sorted_copy(&order), vec![1, 2, 3, 4, 5, 6, 7, 8, 9]);
    assert_valid_order(&edges, &order);
    for (p, s) in [(9, 2), (9, 5), (3, 7), (7, 5), (7, 4), (5, 8), (8, 6), (4, 6), (1, 3), (2, 8)] {
        assert!(position(&order, p) < position(&order, s));
    }
}

#[test]
fn classic_witness_is_a_valid_order() {
    assert_valid_order(&classic_edges(), &[9, 1, 3, 7, 4, 2, 5, 8, 6]);
}

#[test]
fn sorting_twice_gives_two_valid_orders() {
    let edges = classic_edges();
    let first = toposort(&edges).unwrap();
    let second = toposort(&edges).unwrap();
    assert_valid_order(&edges, &first);
    assert_valid_order(&edges, &second);
    assert_eq!(sorted_copy(&first), sorted_copy(&second));
}

#[test]
fn sorting_a_cycle_twice_blocks_the_same_elements() {
    let edges = [(4, 5), (5, 4), (1, 4)];
    let first = toposort(&edges);
    let second = toposort(&edges);
    match (first, second) {
        (
            Err(SortError::CycleDetected { blocked: one }),
            Err(SortError::CycleDetected { blocked: other }),
        ) => {
            assert_eq!(sorted_copy(&one), vec![4, 5]);
            assert_eq!(sorted_copy(&other), vec![4, 5]);
        }
        other => panic!("expected two cycles, got {:?}", other),
    }
}

#[test]
fn duplicate_edge_counts_twice() {
    let (mut graph, distinct) = DependencyGraph::build(&[(1, 2), (1, 2)]).unwrap();
    assert_eq!(graph.in_degree(2).unwrap(), 2);
    assert_eq!(graph.successors(1).unwrap(), vec![2, 2]);
    assert_eq!(find_ready(&graph, &distinct), Some(1));
    let only_two: HashSet<usize> = [2].into_iter().collect();
    graph.release(2);
    assert_eq!(graph.in_degree(2).unwrap(), 1);
    assert_eq!(find_ready(&graph, &only_two), None);
    graph.release(2);
    assert_eq!(graph.in_degree(2).unwrap(), 0);
    assert_eq!(find_ready(&graph, &only_two), Some(2));
}

#[test]
fn duplicate_edges_still_give_a_valid_order() {
    assert_eq!(toposort(&[(1, 2), (1, 2)]), Ok(vec![1, 2]));
    let edges = [(3, 1), (1, 2), (3, 1), (1, 2), (3, 2), (1, 2)];
    assert_eq!(toposort(&edges), Ok(vec![3, 1, 2]));
}

#[test]
fn independent_elements_come_in_some_order() {
    let edges = [(1, 2), (3, 4), (5, 6)];
    let order = toposort(&edges).unwrap();
    assert_valid_order(&edges, &order);
}

#[test]
fn element_zero_and_the_last_slot_are_sorted() {
    assert_eq!(toposort(&[(199, 0)]), Ok(vec![199, 0]));
}

#[test]
fn cycle_beyond_the_table_exceeds_capacity() {
    assert_eq!(toposort(&[(200, 200)]), Err(SortError::CapacityExceeded { edge: 0 }));
    assert_eq!(
        toposort(&[(1, 2), (2, 1), (0, 200)]),
        Err(SortError::CapacityExceeded { edge: 2 })
    );
}

#[test]
fn cycle_at_the_last_slot_is_detected() {
    assert_eq!(
        toposort(&[(199, 199)]),
        Err(SortError::CycleDetected { blocked: vec![199] })
    );
}
