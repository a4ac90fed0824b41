use std::collections::HashSet;

use graph_algos::cycle_check::verify_feedback_set;
use graph_algos::feedback_set::calc_feedback_set_for_graph;
use graph_algos::graph_node::GraphNode;
use graph_algos::integer_graph::IntegerNode;

fn nodes(graph: &[Vec<usize>], roots: &[usize]) -> Vec<IntegerNode> {
    roots.iter().map(|root| IntegerNode { id: *root, graph: graph.to_vec() }).collect()
}

fn feedback(graph: &[Vec<usize>], roots: &[usize]) -> HashSet<usize> {
    calc_feedback_set_for_graph(&nodes(graph, roots))
}

/// A small generator of numbers that looks random and gives the same numbers on every run.
fn next_number(state: &mut u64) -> usize {
    *state = state.wrapping_mul(6364136223846793005).wrapping_add(1442695040888963407);
    (*state >> 33) as usize
}

fn generated_graph(state: &mut u64, size: usize, edges: usize) -> Vec<Vec<usize>> {
    let mut graph: Vec<Vec<usize>> = vec![vec![]; size];
    for _ in 0..edges {
        let from = next_number(state) % size;
        let to = next_number(state) % size;
        graph[from].push(to);
    }
    graph
}

#[test]
fn test_no_entry_points() {
    let entry_points: Vec<IntegerNode> = vec![];
    assert!(calc_feedback_set_for_graph(&entry_points).is_empty());
}

#[test]
fn test_single_node_without_edges() {
    let graph: Vec<Vec<usize>> = vec![vec![]];
    assert!(feedback(&graph, &[0]).is_empty());
}

#[test]
fn test_self_loop_alone() {
    let graph: Vec<Vec<usize>> = vec![vec![0]];
    let fset = feedback(&graph, &[0]);
    assert_eq!(fset, HashSet::from([0]));
    assert!(verify_feedback_set(&graph, fset));
}

#[test]
fn test_self_loop_behind_a_chain() {
    // 0 -> 1 -> 2 -> 3, and 2 -> 2.
    let graph: Vec<Vec<usize>> = vec![vec![1], vec![2], vec![2, 3], vec![]];
    let fset = feedback(&graph, &[0]);
    assert_eq!(fset, HashSet::from([2]));
    assert!(verify_feedback_set(&graph, fset));
}

#[test]
fn test_self_loop_out_of_reach_is_left_alone() {
    // 1 has an edge to itself, but nothing leads from 0 to 1.
    let graph: Vec<Vec<usize>> = vec![vec![], vec![1]];
    assert!(feedback(&graph, &[0]).is_empty());
    assert_eq!(feedback(&graph, &[1]), HashSet::from([1]));
}

#[test]
fn test_target_of_closing_edge_is_blamed() {
    // 0 -> 1 -> 2 -> 1: the edge that closes the cycle is 2 -> 1, so 1 is blamed, not 2.
    let graph: Vec<Vec<usize>> = vec![vec![1], vec![2], vec![1]];
    assert_eq!(feedback(&graph, &[0]), HashSet::from([1]));
}

#[test]
fn test_diamond_has_no_cycle() {
    // 0 -> 1 -> 3 and 0 -> 2 -> 3: node 3 is met twice, over different paths.
    let graph: Vec<Vec<usize>> = vec![vec![1, 2], vec![3], vec![3], vec![]];
    let fset = feedback(&graph, &[0]);
    assert!(fset.is_empty());
    assert!(verify_feedback_set(&graph, fset));
}

#[test]
fn test_repeated_edges() {
    // The edge 0 -> 1 is there three times and the edge 1 -> 0 twice.
    let graph: Vec<Vec<usize>> = vec![vec![1, 1, 1], vec![0, 0]];
    let fset = feedback(&graph, &[0]);
    assert_eq!(fset, HashSet::from([0]));
    assert!(verify_feedback_set(&graph, fset));
}

#[test]
fn test_successor_order_changes_the_set() {
    // 0 -> 1, 0 -> 2, 1 -> 2, 2 -> 1. Whichever of 1 and 2 is entered first is blamed.
    let one_first: Vec<Vec<usize>> = vec![vec![1, 2], vec![2], vec![1]];
    let two_first: Vec<Vec<usize>> = vec![vec![2, 1], vec![2], vec![1]];
    let first = feedback(&one_first, &[0]);
    let second = feedback(&two_first, &[0]);
    assert_eq!(first, HashSet::from([1]));
    assert_eq!(second, HashSet::from([2]));
    assert!(verify_feedback_set(&one_first, first));
    assert!(verify_feedback_set(&two_first, second));
}

#[test]
fn test_entry_point_order_changes_the_set() {
    // 0 -> 1 -> 0.
    let graph: Vec<Vec<usize>> = vec![vec![1], vec![0]];
    assert_eq!(feedback(&graph, &[0, 1]), HashSet::from([0]));
    assert_eq!(feedback(&graph, &[1, 0]), HashSet::from([1]));
}

#[test]
fn test_several_entry_points() {
    // Two cycles that no edge joins: 0 -> 1 -> 0 and 2 -> 3 -> 2.
    let graph: Vec<Vec<usize>> = vec![vec![1], vec![0], vec![3], vec![2]];
    assert_eq!(feedback(&graph, &[0]), HashSet::from([0]));
    let fset = feedback(&graph, &[0, 3]);
    assert_eq!(fset, HashSet::from([0, 3]));
    assert!(verify_feedback_set(&graph, fset));
}

#[test]
fn test_entry_point_given_twice() {
    let graph: Vec<Vec<usize>> = vec![vec![1], vec![0]];
    assert_eq!(feedback(&graph, &[0, 0]), HashSet::from([0]));
}

#[test]
fn test_node_reached_from_two_entry_points_is_explored_once() {
    // 0 -> 2 and 1 -> 2, and 2 -> 3 -> 2.
    let graph: Vec<Vec<usize>> = vec![vec![2], vec![2], vec![3], vec![2]];
    let fset = feedback(&graph, &[0, 1]);
    assert_eq!(fset, HashSet::from([2]));
    assert!(verify_feedback_set(&graph, fset));
}

#[test]
fn test_set_is_not_the_smallest() {
    // 0 -> 1 -> 2 -> 0 and 2 -> 1. Taking out 2 alone would do, or 1 alone.
    let graph: Vec<Vec<usize>> = vec![vec![1], vec![2], vec![0, 1]];
    let fset = feedback(&graph, &[0]);
    assert_eq!(fset, HashSet::from([0, 1]));
    assert!(verify_feedback_set(&graph, HashSet::from([2])));
    assert!(verify_feedback_set(&graph, fset));
}

#[test]
fn test_same_input_same_set() {
    let graph: Vec<Vec<usize>> =
        vec![vec![0, 1], vec![2], vec![3, 4], vec![], vec![4, 5, 6], vec![0, 2], vec![1, 2]];
    let first = feedback(&graph, &[0]);
    for _ in 0..20 {
        assert_eq!(feedback(&graph, &[0]), first);
    }
}

#[test]
fn test_generated_graphs_are_covered() {
    let mut state: u64 = 2023;
    for round in 0..300 {
        let size = 1 + round % 12;
        let edges = next_number(&mut state) % (3 * size);
        let graph = generated_graph(&mut state, size, edges);
        // With every node as an entry point the whole graph is within reach.
        let roots: Vec<usize> = (0..size).collect();
        let fset = feedback(&graph, &roots);
        assert!(verify_feedback_set(&graph, fset), "graph {:?}", graph);
    }
}

#[test]
fn test_generated_graphs_from_one_root() {
    let mut state: u64 = 77;
    for round in 0..300 {
        let size = 2 + round % 10;
        let edges = next_number(&mut state) % (3 * size);
        let mut graph = generated_graph(&mut state, size, edges);
        // The last node leads to every other one, so that all are within its reach.
        graph[size - 1] = (0..size - 1).collect();
        let fset = feedback(&graph, &[size - 1]);
        assert!(verify_feedback_set(&graph, fset), "graph {:?}", graph);
    }
}

#[test]
fn test_generated_acyclic_graphs_give_empty_set() {
    let mut state: u64 = 5;
    for round in 0..200 {
        let size = 2 + round % 10;
        let mut graph: Vec<Vec<usize>> = vec![vec![]; size];
        for _ in 0..2 * size {
            let a = next_number(&mut state) % size;
            let b = next_number(&mut state) % size;
            // Edges lead from a smaller number to a larger one only.
            if a < b {
                graph[a].push(b);
            } else if b < a {
                graph[b].push(a);
            }
        }
        let roots: Vec<usize> = (0..size).collect();
        assert!(feedback(&graph, &roots).is_empty(), "graph {:?}", graph);
        assert!(feedback(&graph, &[0]).is_empty(), "graph {:?}", graph);
    }
}

#[test]
fn test_generated_self_loops_are_in_the_set() {
    let mut state: u64 = 99;
    for round in 0..200 {
        let size = 1 + round % 9;
        let edges = next_number(&mut state) % (3 * size);
        let graph = generated_graph(&mut state, size, edges);
        let roots: Vec<usize> = (0..size).collect();
        let fset = feedback(&graph, &roots);
        for (node, successors) in graph.iter().enumerate() {
            if successors.contains(&node) {
                assert!(fset.contains(&node), "graph {:?}", graph);
            }
        }
    }
}

#[test]
fn test_integer_node_identity() {
    let graph: Vec<Vec<usize>> = vec![vec![1, 2], vec![], vec![0]];
    assert_eq!(IntegerNode { id: 2, graph: graph.clone() }.get_id(), 2);
    assert_eq!(IntegerNode { id: 0, graph }.get_id(), 0);
}

#[test]
fn test_integer_node_neighbors() {
    let graph: Vec<Vec<usize>> = vec![vec![2, 1, 2], vec![], vec![0]];
    let node = IntegerNode { id: 0, graph: graph.clone() };
    let neighbors = node.get_neighbors();
    let ids: Vec<usize> = neighbors.iter().map(|neighbor| neighbor.get_id()).collect();
    assert_eq!(ids, vec![2, 1, 2]);
    for neighbor in &neighbors {
        assert_eq!(neighbor.graph, graph);
    }
    assert!(IntegerNode { id: 1, graph }.get_neighbors().is_empty());
}

#[test]
fn test_integer_node_clone() {
    let node = IntegerNode { id: 1, graph: vec![vec![1], vec![0, 1]] };
    let copy = node.clone();
    assert_eq!(copy.id, 1);
    assert_eq!(copy.graph, vec![vec![1], vec![0, 1]]);
    assert!(copy == node);
}
