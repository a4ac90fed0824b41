use std::collections::HashSet;

use graph_algos::cycle_check::verify_feedback_set;
use graph_algos::feedback_set::calc_feedback_set_for_graph;
use graph_algos::integer_graph::IntegerNode;
use itertools::{chain, Itertools};

#[test]
fn test_list() {
    // Nodes 0 to 9 have only one neighbor (i -> i + 1), and 10 is a leaf.
    let mut graph: Vec<Vec<usize>> = (0..10).map(|id| vec![id + 1]).collect();
    graph.push(vec![]);

    let entry_points = vec![IntegerNode { id: 0, graph: graph.clone() }];
    let fset = HashSet::<usize>::from_iter(calc_feedback_set_for_graph(&entry_points));
    assert!(fset.is_empty());
    assert!(verify_feedback_set(&graph, fset));
}

#[test]
fn test_cycle() {
    // Each node has only one neighbor. i -> i + 1 for i = 0...8, and 9 -> 0.
    let graph: Vec<Vec<usize>> = (0..10).map(|id| vec![(id + 1) % 10]).collect();

    let entry_points = vec![IntegerNode { id: 0, graph: graph.clone() }];
    let fset = HashSet::<usize>::from_iter(calc_feedback_set_for_graph(&entry_points));
    assert_eq!(fset, HashSet::from([0]));
    assert!(verify_feedback_set(&graph, fset));
}

#[test]
fn test_root_points_to_cycle() {
    // 0 to 9 form a cycle.
    let mut graph: Vec<Vec<usize>> = (0..10).map(|id| vec![(id + 1) % 10]).collect();
    // And 10 (the root) has an edge to 0.
    graph.push(/* 10: */ vec![0]);

    // Note 10 is used as a root.
    let entry_points = vec![IntegerNode { id: 10, graph: graph.clone() }];
    let fset = HashSet::<usize>::from_iter(calc_feedback_set_for_graph(&entry_points));
    assert_eq!(fset, HashSet::from([0]));
    assert!(verify_feedback_set(&graph, fset));
}

#[test]
fn test_connected_cycles() {
    // 0 to 4 form one cycle and 5 to 9 form another cycle.
    let mut graph: Vec<Vec<usize>> =
        chain((0..5).map(|id| vec![(id + 1) % 5]), (0..5).map(|id| vec![5 + (id + 1) % 5]))
            .collect();

    // 4 is connected to 5.
    graph[4].push(5);

    let entry_points = vec![IntegerNode { id: 0, graph: graph.clone() }];
    let fset = HashSet::<usize>::from_iter(calc_feedback_set_for_graph(&entry_points));
    assert_eq!(fset, HashSet::from([0, 5]));
    assert!(verify_feedback_set(&graph, fset));
}

#[test]
fn test_mesh() {
    // Each node has edges to all other nodes.
    let graph = (0..5).map(|i| (0..5).filter(|j| *j != i).collect::<Vec<usize>>()).collect_vec();

    let entry_points = vec![IntegerNode { id: 0, graph: graph.clone() }];
    let fset = HashSet::<usize>::from_iter(calc_feedback_set_for_graph(&entry_points));
    assert_eq!(fset, HashSet::from_iter(0..4));
    assert!(verify_feedback_set(&graph, fset));
}

// The feedback set depends on the root node we start from (but it's stable given the same root).
fn check_tangent_cycles(root: usize, expected_fset: HashSet<usize>) {
    // 0 to 3 form one cycle and 3 to 6 form another cycle. Note 3 is in both.
    // 0 -> 1 -> 2 ->  3  -> 4 -> 6
    // ^______________| ^_________|
    let graph: Vec<Vec<usize>> = chain(
        chain((0..3).map(|id| vec![id + 1]), vec![vec![0, 4]].into_iter()),
        (0..3).map(|id| vec![3 + (id + 2) % 4]),
    )
    .collect();

    let entry_points = vec![IntegerNode { id: root, graph: graph.clone() }];
    let fset = HashSet::<usize>::from_iter(calc_feedback_set_for_graph(&entry_points));
    assert_eq!(fset, expected_fset);
    assert!(verify_feedback_set(&graph, fset));
}

#[test]
fn test_tangent_cycles_root_0() {
    check_tangent_cycles(0, HashSet::from([0, 3]));
}

#[test]
fn test_tangent_cycles_root_3() {
    check_tangent_cycles(3, HashSet::from([3]));
}

// Test a graph with multiple cycles.
fn check_multiple_cycles(root: usize, expected_fset: HashSet<usize>) {
    let graph: Vec<Vec<usize>> = vec![
        // 0:
        vec![1, 2],
        // 1:
        vec![2, 3],
        // 2:
        vec![3],
        // 3:
        vec![0],
    ];

    let entry_points = vec![IntegerNode { id: root, graph: graph.clone() }];
    let fset = HashSet::<usize>::from_iter(calc_feedback_set_for_graph(&entry_points));
    assert_eq!(fset, expected_fset);
    assert!(verify_feedback_set(&graph, fset));
}

#[test]
fn test_multiple_cycles_root_0() {
    check_multiple_cycles(0, HashSet::from([0]));
}

#[test]
fn test_multiple_cycles_root_1() {
    check_multiple_cycles(1, HashSet::from([1, 2]));
}

#[test]
fn test_multiple_cycles_root_2() {
    check_multiple_cycles(2, HashSet::from([2, 3]));
}

#[test]
fn test_multiple_cycles_root_3() {
    check_multiple_cycles(3, HashSet::from([3]));
}

// Test a graph where the root is in a cycle and also calls another cycle.
#[test]
fn test_root_in_cycle_and_calls_cycle() {
    let graph: Vec<Vec<usize>> = vec![
        // 0:
        vec![0, 1],
        // 1:
        vec![1],
    ];

    let entry_points = vec![IntegerNode { id: 0, graph: graph.clone() }];
    let fset = HashSet::<usize>::from_iter(calc_feedback_set_for_graph(&entry_points));
    assert_eq!(fset, HashSet::from([0, 1]));
    assert!(verify_feedback_set(&graph, fset));
}

// Test a "random" complicated graph.
#[test]
fn test_complicated_graph_1() {
    let graph: Vec<Vec<usize>> = vec![
        // 0:
        vec![1],
        // 1:
        vec![2],
        // 2:
        vec![3, 4],
        // 3:
        vec![],
        // 4:
        vec![5, 6],
        // 5:
        vec![0, 2],
        // 6:
        vec![1, 2],
    ];

    let entry_points = vec![IntegerNode { id: 0, graph: graph.clone() }];
    let fset = HashSet::<usize>::from_iter(calc_feedback_set_for_graph(&entry_points));
    assert_eq!(fset, HashSet::from([0, 1, 2]));
    assert!(verify_feedback_set(&graph, fset));
}

// Test another "random" complicated graph (same graph, but 0 and 4 have self-edges).
#[test]
fn test_complicated_graph_2() {
    let graph: Vec<Vec<usize>> = vec![
        // 0:
        vec![0, 1],
        // 1:
        vec![2],
        // 2:
        vec![3, 4],
        // 3:
        vec![],
        // 4:
        vec![4, 5, 6],
        // 5:
        vec![0, 2],
        // 6:
        vec![1, 2],
    ];

    let entry_points = vec![IntegerNode { id: 0, graph: graph.clone() }];
    let fset = HashSet::<usize>::from_iter(calc_feedback_set_for_graph(&entry_points));
    assert_eq!(fset, HashSet::from([0, 1, 2, 4]));
    assert!(verify_feedback_set(&graph, fset));
}
