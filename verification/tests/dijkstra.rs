use graph_algos::graph::UWGraph;

/// A breadth-first-search oracle over the same textual format: the
/// number of edges on a shortest path, ignoring weights.
fn bfs_hops(adjacency: &[Vec<usize>], source: usize, target: usize) -> Option<usize> {
    let n = adjacency.len();
    let mut dist: Vec<Option<usize>> = vec![None; n];
    let mut queue: Vec<usize> = vec![source];
    dist[source - 1] = Some(0);
    let mut head = 0;
    while head < queue.len() {
        let v = queue[head];
        head += 1;
        for &u in &adjacency[v - 1] {
            if dist[u - 1].is_none() {
                dist[u - 1] = Some(dist[v - 1].unwrap() + 1);
                queue.push(u);
            }
        }
    }
    dist[target - 1]
}

#[test]
fn chain_distances_from_source() {
    // the weighted undirected chain 1-2(w=1)-3(w=1)-4(w=1)
    let text = "1\t2,1\n2\t1,1\t3,1\n3\t2,1\t4,1\n4\t3,1\n";
    let graph = UWGraph::from_text(text.to_string()).unwrap();
    assert_eq!(graph.shortest_path_to(1), Some(0));
    assert_eq!(graph.shortest_path_to(2), Some(1));
    assert_eq!(graph.shortest_path_to(3), Some(2));
    assert_eq!(graph.shortest_path_to(4), Some(3));
}

#[test]
fn unit_weights_match_breadth_first_search() {
    // a unit-weight graph: 1-2, 1-3, 2-4, 3-4, 4-5; distances equal
    // the number of edges on a shortest path
    let text = "1\t2,1\t3,1\n2\t1,1\t4,1\n3\t1,1\t4,1\n4\t2,1\t3,1\t5,1\n5\t4,1\n";
    let graph = UWGraph::from_text(text.to_string()).unwrap();
    let adjacency: Vec<Vec<usize>> =
        vec![vec![2, 3], vec![1, 4], vec![1, 4], vec![2, 3, 5], vec![4]];
    for target in 1..=5 {
        assert_eq!(graph.shortest_path_to(target), bfs_hops(&adjacency, 1, target));
    }
}

#[test]
fn unreachable_vertex_reports_no_distance() {
    // two components: 1-2 and 3-4; vertices 3 and 4 are unreachable
    let text = "1\t2,5\n2\t1,5\n3\t4,2\n4\t3,2\n";
    let graph = UWGraph::from_text(text.to_string()).unwrap();
    assert_eq!(graph.shortest_path_to(2), Some(5));
    assert_eq!(graph.shortest_path_to(3), None);
    assert_eq!(graph.shortest_path_to(4), None);
}

#[test]
fn cheaper_detour_beats_direct_edge() {
    // 1-2 costs 10 directly, but 1-3-2 costs 2 + 3
    let text = "1\t2,10\t3,2\n2\t1,10\t3,3\n3\t1,2\t2,3\n";
    let graph = UWGraph::from_text(text.to_string()).unwrap();
    assert_eq!(graph.shortest_path_to(2), Some(5));
    assert_eq!(graph.shortest_path_to(3), Some(2));
}

#[test]
fn from_text_accepts_empty_input() {
    assert!(UWGraph::from_text(String::new()).is_some());
}

#[test]
fn from_text_rejects_bad_id_order() {
    // the second line declares id 3 where 2 is expected
    assert!(UWGraph::from_text("1\t2,1\n3\t1,1\n".to_string()).is_none());
}

#[test]
fn from_text_rejects_malformed_number() {
    assert!(UWGraph::from_text("1\t2,x\n2\t1,1\n".to_string()).is_none());
}

#[test]
fn from_text_rejects_incomplete_pair() {
    assert!(UWGraph::from_text("1\t2\n2\t1,1\n".to_string()).is_none());
}

#[test]
fn from_text_rejects_out_of_range_neighbour() {
    // vertex 9 does not exist in a two-vertex graph
    assert!(UWGraph::from_text("1\t9,1\n2\t1,1\n".to_string()).is_none());
}

#[test]
fn from_text_rejects_huge_number() {
    let text = format!("1\t2,{}0\n2\t1,1\n", usize::MAX);
    assert!(UWGraph::from_text(text).is_none());
}
