use data_structures::graph::Graph;

fn three_node_example() -> Graph {
    let mut graph = Graph::new();
    graph.add_node(1);
    graph.add_node(2);
    graph.add_node(3);
    graph.add_edge(1, 2, Some(1));
    graph.add_edge(2, 3, Some(1));
    graph.add_edge(1, 3, Some(5));
    graph
}

#[test]
fn add_and_get_nodes() {
    let mut graph = Graph::new();
    graph.add_node(7);
    graph.add_node(9);
    assert!(graph.get_node(7).is_some());
    assert!(graph.get_node(9).is_some());
    assert!(graph.get_node(8).is_none());
    let node = graph.get_node(7).unwrap();
    assert_eq!(node.value, 7);
    assert!(node.edges.is_empty());
}

#[test]
fn duplicate_node_is_ignored() {
    let mut graph = Graph::new();
    graph.add_node(1);
    graph.add_edge(1, 1, None);
    graph.add_node(1);
    let node = graph.get_node(1).unwrap();
    assert_eq!(node.edges.len(), 1);
}

#[test]
fn add_edge_requires_both_endpoints() {
    let mut graph = Graph::new();
    graph.add_node(1);
    graph.add_edge(1, 2, None);
    graph.add_edge(2, 1, None);
    assert!(graph.get_node(1).unwrap().edges.is_empty());
    assert!(graph.get_node(2).is_none());
}

#[test]
fn remove_edge_removes_all_matches() {
    let mut graph = Graph::new();
    graph.add_node(1);
    graph.add_node(2);
    graph.add_node(3);
    graph.add_edge(1, 2, Some(4));
    graph.add_edge(1, 2, Some(9));
    graph.add_edge(1, 3, None);
    graph.remove_edge(1, 2);
    let node = graph.get_node(1).unwrap();
    assert_eq!(node.edges.len(), 1);
    assert_eq!(node.edges[0].destination, 3);
}

#[test]
fn edge_round_trip_leaves_others_alone() {
    let mut graph = three_node_example();
    graph.add_edge(2, 1, Some(8));
    graph.remove_edge(2, 1);
    let n1 = graph.get_node(1).unwrap();
    let n2 = graph.get_node(2).unwrap();
    assert_eq!(
        n1.edges.iter().map(|e| e.destination).collect::<Vec<_>>(),
        vec![2, 3]
    );
    assert_eq!(
        n2.edges.iter().map(|e| e.destination).collect::<Vec<_>>(),
        vec![3]
    );
}

#[test]
fn remove_node_prunes_adjacencies() {
    let mut graph = three_node_example();
    graph.remove_node(2);
    assert!(graph.get_node(2).is_none());
    let n1 = graph.get_node(1).unwrap();
    assert!(n1.edges.iter().all(|e| e.destination != 2));
    assert_eq!(
        n1.edges.iter().map(|e| e.destination).collect::<Vec<_>>(),
        vec![3]
    );
    let n3 = graph.get_node(3).unwrap();
    assert!(n3.edges.iter().all(|e| e.destination != 2));
}

#[test]
fn remove_node_twice_is_idempotent() {
    let mut graph1 = three_node_example();
    let mut graph2 = three_node_example();
    graph1.remove_node(2);
    graph2.remove_node(2);
    graph2.remove_node(2);
    for v in [1u64, 2, 3] {
        match (graph1.get_node(v), graph2.get_node(v)) {
            (None, None) => {}
            (Some(a), Some(b)) => {
                let da: Vec<_> = a.edges.iter().map(|e| (e.destination, e.weight)).collect();
                let db: Vec<_> = b.edges.iter().map(|e| (e.destination, e.weight)).collect();
                assert_eq!(da, db);
            }
            _ => panic!("graphs differ at node {}", v),
        }
    }
}

#[test]
fn remove_absent_node_changes_nothing() {
    let mut graph = three_node_example();
    graph.remove_node(42);
    assert_eq!(graph.depth_first_search(1), vec![1, 2, 3]);
}

#[test]
fn dfs_preorder() {
    let mut graph = Graph::new();
    for v in [1u64, 2, 3, 4] {
        graph.add_node(v);
    }
    graph.add_edge(1, 2, None);
    graph.add_edge(1, 3, None);
    graph.add_edge(2, 4, None);
    graph.add_edge(3, 4, None);
    assert_eq!(graph.depth_first_search(1), vec![1, 2, 4, 3]);
}

#[test]
fn bfs_level_order() {
    let mut graph = Graph::new();
    for v in [1u64, 2, 3, 4] {
        graph.add_node(v);
    }
    graph.add_edge(1, 2, None);
    graph.add_edge(1, 3, None);
    graph.add_edge(2, 4, None);
    graph.add_edge(3, 4, None);
    assert_eq!(graph.breadth_first_search(1), vec![1, 2, 3, 4]);
}

#[test]
fn traversals_from_absent_start_are_empty() {
    let graph = three_node_example();
    assert!(graph.depth_first_search(99).is_empty());
    assert!(graph.breadth_first_search(99).is_empty());
}

#[test]
fn traversals_visit_the_same_set() {
    let mut graph = Graph::new();
    for v in [1u64, 2, 3, 4, 5] {
        graph.add_node(v);
    }
    graph.add_edge(1, 3, None);
    graph.add_edge(1, 2, None);
    graph.add_edge(3, 4, None);
    graph.add_edge(2, 4, None);
    graph.add_edge(4, 1, None);
    let mut dfs = graph.depth_first_search(1);
    let mut bfs = graph.breadth_first_search(1);
    dfs.sort();
    bfs.sort();
    assert_eq!(dfs, bfs);
    assert_eq!(dfs, vec![1, 2, 3, 4]);
}

#[test]
fn cycle_is_detected() {
    let mut graph = Graph::new();
    for v in [1u64, 2, 3] {
        graph.add_node(v);
    }
    graph.add_edge(1, 2, None);
    graph.add_edge(2, 3, None);
    graph.add_edge(3, 1, None);
    assert!(graph.is_cyclic());
}

#[test]
fn chain_has_no_cycle() {
    let mut graph = Graph::new();
    for v in [1u64, 2, 3] {
        graph.add_node(v);
    }
    graph.add_edge(1, 2, None);
    graph.add_edge(2, 3, None);
    assert!(!graph.is_cyclic());
}

#[test]
fn self_loop_is_a_cycle() {
    let mut graph = Graph::new();
    graph.add_node(1);
    graph.add_edge(1, 1, None);
    assert!(graph.is_cyclic());
}

#[test]
fn empty_graph_has_no_cycle() {
    let graph = Graph::new();
    assert!(!graph.is_cyclic());
}

#[test]
fn shortest_path_prefers_the_cheaper_route() {
    let graph = three_node_example();
    assert_eq!(graph.shortest_path(1, 3), vec![1, 2, 3]);
}

#[test]
fn shortest_path_unreachable_is_empty() {
    let mut graph = Graph::new();
    for v in [1u64, 2, 3] {
        graph.add_node(v);
    }
    graph.add_edge(1, 2, None);
    graph.add_edge(2, 3, None);
    graph.remove_edge(2, 3);
    assert!(graph.shortest_path(1, 3).is_empty());
}

#[test]
fn shortest_path_to_self_is_single_node() {
    let graph = three_node_example();
    assert_eq!(graph.shortest_path(1, 1), vec![1]);
}

#[test]
fn shortest_path_with_absent_endpoint_is_empty() {
    let graph = three_node_example();
    assert!(graph.shortest_path(1, 9).is_empty());
    assert!(graph.shortest_path(9, 1).is_empty());
}

#[test]
fn missing_weight_counts_as_zero() {
    let mut graph = Graph::new();
    for v in [1u64, 2, 3] {
        graph.add_node(v);
    }
    graph.add_edge(1, 2, None);
    graph.add_edge(2, 3, None);
    graph.add_edge(1, 3, Some(1));
    // the unweighted two-hop route costs zero and beats the weighted edge
    assert_eq!(graph.shortest_path(1, 3), vec![1, 2, 3]);
}
