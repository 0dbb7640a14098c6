use oscen::graph::topology::{sort_by_dependencies, topological_sort, verify_cycles_have_feedback};
use oscen::graph::TopologyError;

#[test]
fn test_simple_chain() {
    // a -> b -> c
    let nodes = vec!["a", "b", "c"];
    let deps = |node: &&str| -> Vec<&str> {
        match *node {
            "b" => vec!["a"],
            "c" => vec!["b"],
            _ => vec![],
        }
    };

    let sorted = topological_sort(nodes, deps, |_| false).unwrap();
    assert_eq!(sorted, vec!["a", "b", "c"]);
}

#[test]
fn test_diamond() {
    // a -> b -> d
    // a -> c -> d
    let nodes = vec!["a", "b", "c", "d"];
    let deps = |node: &&str| -> Vec<&str> {
        match *node {
            "b" => vec!["a"],
            "c" => vec!["a"],
            "d" => vec!["b", "c"],
            _ => vec![],
        }
    };

    let sorted = topological_sort(nodes, deps, |_| false).unwrap();
    assert_eq!(sorted[0], "a");
    assert_eq!(sorted[3], "d");
    // b and c can be in either order
}

#[test]
fn test_cycle_detection() {
    // a -> b -> a (cycle)
    let nodes = vec!["a", "b"];
    let deps = |node: &&str| -> Vec<&str> {
        match *node {
            "a" => vec!["b"],
            "b" => vec!["a"],
            _ => vec![],
        }
    };

    let result = topological_sort(nodes, deps, |_| false);
    assert!(result.is_err());
    match result {
        Err(TopologyError::CycleDetected { .. }) => (),
        _ => panic!("Expected cycle error"),
    }
}

#[test]
fn test_feedback_breaks_cycle() {
    // a -> b -> a (cycle, but a allows feedback)
    let nodes = vec!["a", "b"];
    let deps = |node: &&str| -> Vec<&str> {
        match *node {
            "a" => vec!["b"],
            "b" => vec!["a"],
            _ => vec![],
        }
    };
    let allows_feedback = |node: &&str| *node == "a";

    let sorted = topological_sort(nodes, deps, allows_feedback).unwrap();
    // Should succeed because 'a' allows feedback
    assert_eq!(sorted.len(), 2);
}

#[test]
fn feedback_node_comes_after_its_dependencies() {
    // a depends on b, b depends on a; a breaks the cycle, so only a's
    // dependency on b orders the two.
    let nodes = vec!["a", "b"];
    let deps = |node: &&str| -> Vec<&str> {
        match *node {
            "a" => vec!["b"],
            "b" => vec!["a"],
            _ => vec![],
        }
    };
    let sorted = topological_sort(nodes, deps, |n: &&str| *n == "a").unwrap();
    assert_eq!(sorted, vec!["b", "a"]);
}

#[test]
fn self_dependency_is_a_cycle() {
    let nodes = vec![1u32, 2];
    let deps = |n: &u32| if *n == 2 { vec![2u32] } else { vec![] };
    match topological_sort(nodes, deps, |_| false) {
        Err(TopologyError::CycleDetected { path }) => assert_eq!(path, vec![2]),
        _ => panic!("Expected cycle error"),
    }
}

#[test]
fn duplicate_nodes_are_listed_once() {
    let nodes = vec![3u32, 1, 3, 2];
    let deps = |n: &u32| match *n {
        3 => vec![2u32],
        2 => vec![1u32],
        _ => vec![],
    };
    let sorted = topological_sort(nodes, deps, |_| false).unwrap();
    assert_eq!(sorted, vec![1, 2, 3]);
}

#[test]
fn dependencies_outside_the_node_list_are_ignored() {
    let nodes = vec![1u32, 2];
    let deps = |n: &u32| if *n == 2 { vec![1u32, 99] } else { vec![] };
    let sorted = topological_sort(nodes, deps, |_| false).unwrap();
    assert_eq!(sorted, vec![1, 2]);
}

#[test]
fn cycle_through_feedback_node_among_others_is_accepted() {
    // 1 -> 2 -> 3 -> 1 with 3 allowing feedback; 4 depends on 1.
    let nodes = vec![1u32, 2, 3, 4];
    let deps = |n: &u32| match *n {
        1 => vec![3u32],
        2 => vec![1u32],
        3 => vec![2u32],
        4 => vec![1u32],
        _ => vec![],
    };
    let sorted = topological_sort(nodes, deps, |n: &u32| *n == 3).unwrap();
    let pos = |x: u32| sorted.iter().position(|&y| y == x).unwrap();
    assert!(pos(1) < pos(2));
    assert!(pos(2) < pos(3));
    assert!(pos(1) < pos(4));
}

#[test]
fn cycle_without_feedback_beside_a_feedback_cycle_is_rejected() {
    // 1 <-> 2 broken by 2, but 3 <-> 4 has no feedback node.
    let nodes = vec![1u32, 2, 3, 4];
    let deps = |n: &u32| match *n {
        1 => vec![2u32],
        2 => vec![1u32],
        3 => vec![4u32],
        4 => vec![3u32],
        _ => vec![],
    };
    match topological_sort(nodes, deps, |n: &u32| *n == 2) {
        Err(TopologyError::CycleDetected { path }) => {
            assert_eq!(path.len(), 1);
            assert!(path[0] == 3 || path[0] == 4);
        }
        _ => panic!("Expected cycle error"),
    }
}

#[test]
fn sort_by_dependencies_orders_lists() {
    let nodes = vec![10u32, 20, 30];
    let deps = vec![vec![30u32], vec![], vec![20u32]];
    let feedback = vec![false, false, false];
    assert_eq!(sort_by_dependencies(&nodes, &deps, &feedback).unwrap(), vec![20, 30, 10]);
}

#[test]
fn verify_cycles_reports_a_feedback_free_cycle() {
    let nodes = ["x", "y", "z"];
    // x -> y -> z -> x, with no feedback node
    let adjacency = vec![vec![1usize], vec![2usize], vec![0usize]];
    match verify_cycles_have_feedback(&nodes, &adjacency, &vec![false, false, false]) {
        Err(TopologyError::CycleDetected { path }) => assert_eq!(path, vec!["x", "y", "z"]),
        _ => panic!("Expected cycle error"),
    }
    assert!(verify_cycles_have_feedback(&nodes, &adjacency, &vec![false, true, false]).is_ok());
}

#[test]
fn verify_cycles_rejects_a_cycle_beside_a_feedback_node() {
    let nodes = ["a", "m", "b"];
    // a -> m -> b -> a and a -> b -> a; m allows feedback, a -> b -> a has
    // no node that does.
    let adjacency = vec![vec![1usize, 2], vec![2usize], vec![0usize]];
    match verify_cycles_have_feedback(&nodes, &adjacency, &vec![false, true, false]) {
        Err(TopologyError::CycleDetected { path }) => assert_eq!(path, vec!["a", "b"]),
        _ => panic!("Expected cycle error"),
    }
    // Without the feedback node the first cycle closed is reported.
    match verify_cycles_have_feedback(&nodes, &adjacency, &vec![false, false, false]) {
        Err(TopologyError::CycleDetected { path }) => assert_eq!(path, vec!["a", "m", "b"]),
        _ => panic!("Expected cycle error"),
    }
    // With both a and m allowing feedback every cycle holds one.
    assert!(verify_cycles_have_feedback(&nodes, &adjacency, &vec![true, true, false]).is_ok());
}

#[test]
fn verify_cycles_finds_a_cycle_closed_by_a_cross_edge() {
    let nodes = [0u8, 1, 2];
    // 0 -> 1 -> 2 -> 0 holds the feedback node 1; 0 -> 2 -> 0 does not.
    let adjacency = vec![vec![1usize, 2], vec![2usize], vec![0usize]];
    match verify_cycles_have_feedback(&nodes, &adjacency, &vec![false, true, false]) {
        Err(TopologyError::CycleDetected { path }) => assert_eq!(path, vec![0, 2]),
        _ => panic!("Expected cycle error"),
    }
}

#[test]
fn verify_cycles_accepts_acyclic_graphs() {
    let nodes = [1u8, 2, 3];
    let adjacency = vec![vec![1usize, 2], vec![2usize], vec![]];
    assert!(verify_cycles_have_feedback(&nodes, &adjacency, &vec![false, false, false]).is_ok());
}
