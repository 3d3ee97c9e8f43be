use graph_algos::scc::{kosaraju, top_5_scc_sizes, top_scc_sizes, DirectedGraph};

/// All edges of a graph as a sorted list of `(from, to)` pairs, read
/// back through the public getters — a canonical form of the edge
/// multiset.
fn sorted_edges(graph: &DirectedGraph) -> Vec<(usize, usize)> {
    let mut edges = Vec::new();
    for i in 0..graph.node_count() {
        for t in graph.adjacent_ids(i) {
            edges.push((i + 1, t));
        }
    }
    edges.sort();
    edges
}

#[test]
fn test_reversal() {
    let mut graph = DirectedGraph::default();
    graph.add_edge(1, 2);
    graph.add_edge(1, 3);
    graph.add_edge(4, 5);

    assert_eq!(graph.node_count(), 5);
    assert_eq!(graph.node_id_at(0), 1);
    assert_eq!(graph.node_id_at(1), 2);
    assert_eq!(graph.node_id_at(2), 3);
    assert_eq!(graph.node_id_at(3), 4);
    assert_eq!(graph.node_id_at(4), 5);

    assert_eq!(graph.adjacent_ids(0), vec![2, 3]);
    assert_eq!(graph.adjacent_ids(1), vec![]);
    assert_eq!(graph.adjacent_ids(2), vec![]);
    assert_eq!(graph.adjacent_ids(3), vec![5]);
    assert_eq!(graph.adjacent_ids(4), vec![]);

    let reversed = graph.reversed();
    assert_eq!(reversed.node_count(), 5);
    assert_eq!(reversed.adjacent_ids(0), vec![]);
    assert_eq!(reversed.adjacent_ids(1), vec![1]);
    assert_eq!(reversed.adjacent_ids(2), vec![1]);
    assert_eq!(reversed.adjacent_ids(3), vec![]);
    assert_eq!(reversed.adjacent_ids(4), vec![4]);
}

#[test]
fn reversing_twice_keeps_the_edge_multiset() {
    let mut graph = DirectedGraph::default();
    for (from, to) in [(1, 2), (2, 3), (3, 1), (2, 3), (4, 2), (1, 4)] {
        graph.add_edge(from, to);
    }
    let round_trip = graph.reversed().reversed();
    assert_eq!(sorted_edges(&round_trip), sorted_edges(&graph));
}

#[test]
fn two_components_largest_first() {
    // the cycle 1 -> 2 -> 3 -> 1 and the edge 4 -> 5
    let mut graph = DirectedGraph::default();
    graph.add_edge(1, 2);
    graph.add_edge(2, 3);
    graph.add_edge(3, 1);
    graph.add_edge(4, 5);

    assert_eq!(top_scc_sizes(&graph, 2), vec![3, 1]);

    let sizes = kosaraju(&graph);
    let total: usize = sizes.iter().sum();
    assert_eq!(total, graph.node_count());
}

#[test]
fn single_cycle_is_one_component() {
    let mut graph = DirectedGraph::default();
    let k = 6;
    for v in 1..k {
        graph.add_edge(v, v + 1);
    }
    graph.add_edge(k, 1);

    let sizes = kosaraju(&graph);
    assert_eq!(sizes, vec![k]);
}

#[test]
fn acyclic_graph_has_singleton_components() {
    // a diamond: 1 -> 2, 1 -> 3, 2 -> 4, 3 -> 4
    let mut graph = DirectedGraph::default();
    graph.add_edge(1, 2);
    graph.add_edge(1, 3);
    graph.add_edge(2, 4);
    graph.add_edge(3, 4);

    let mut sizes = kosaraju(&graph);
    sizes.sort();
    assert_eq!(sizes, vec![1, 1, 1, 1]);
}

#[test]
fn component_sizes_sum_to_vertex_count() {
    let mut graph = DirectedGraph::default();
    for (from, to) in [(1, 2), (2, 1), (3, 4), (4, 5), (5, 3), (2, 3), (6, 6)] {
        graph.add_edge(from, to);
    }
    let sizes = kosaraju(&graph);
    let total: usize = sizes.iter().sum();
    assert_eq!(total, graph.node_count());
    assert!(sizes.iter().all(|&s| s >= 1));
}

#[test]
fn top_five_pads_with_zeros() {
    // one component of seven vertices and one singleton
    let mut graph = DirectedGraph::default();
    for v in 1..7 {
        graph.add_edge(v, v + 1);
    }
    graph.add_edge(7, 1);
    graph.add_edge(8, 1);

    assert_eq!(top_5_scc_sizes(&graph), vec![7, 1, 0, 0, 0]);
}

#[test]
fn from_matrix_builds_the_edges() {
    let matrix = vec![vec![1, 2], vec![2, 3], vec![3, 1], vec![4, 5]];
    let graph = DirectedGraph::from_matrix(&matrix).unwrap();
    assert_eq!(graph.node_count(), 5);
    assert_eq!(sorted_edges(&graph), vec![(1, 2), (2, 3), (3, 1), (4, 5)]);
    assert_eq!(top_scc_sizes(&graph, 2), vec![3, 1]);
}

#[test]
fn from_matrix_rejects_short_rows() {
    assert!(DirectedGraph::from_matrix(&vec![vec![1, 2], vec![3]]).is_none());
    assert!(DirectedGraph::from_matrix(&vec![vec![0, 2]]).is_none());
}

#[test]
fn empty_graph_has_no_components() {
    let graph = DirectedGraph::default();
    assert!(kosaraju(&graph).is_empty());
    assert_eq!(top_5_scc_sizes(&graph), vec![0, 0, 0, 0, 0]);
}
