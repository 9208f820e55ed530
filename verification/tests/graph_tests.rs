use sec_net_engine::error::GraphError;
use sec_net_engine::graph::{Graph, NodeId};

#[test]
fn new_graph_rejects_zero_nodes() {
    assert!(matches!(Graph::new(0), Err(GraphError::EmptyGraph)));
    let g = Graph::new(3).unwrap();
    assert_eq!(g.num_nodes(), 3);
    assert_eq!(g.degree(0).unwrap(), 0);
}

#[test]
fn add_edge_drops_self_loops_and_duplicates() {
    let mut g = Graph::new(3).unwrap();
    g.add_edge(0, 1).unwrap();
    g.add_edge(1, 0).unwrap();
    g.add_edge(2, 2).unwrap();
    assert_eq!(g.degree(0).unwrap(), 1);
    assert_eq!(g.degree(1).unwrap(), 1);
    assert_eq!(g.degree(2).unwrap(), 0);
    assert_eq!(g.neighbours(1).unwrap(), &[0usize][..]);
}

#[test]
fn add_edge_reports_first_bad_endpoint() {
    let mut g = Graph::new(2).unwrap();
    assert_eq!(g.add_edge(5, 7), Err(GraphError::NodeOutOfRange(5, 2)));
    assert_eq!(g.add_edge(1, 7), Err(GraphError::NodeOutOfRange(7, 2)));
    assert_eq!(g.degree(1).unwrap(), 0);
}

#[test]
fn from_edges_builds_adjacency_in_order() {
    let g = Graph::from_edges(4, &[(0, 1), (1, 2), (0, 2), (2, 1)]).unwrap();
    assert_eq!(g.neighbours(0).unwrap(), &[1usize, 2][..]);
    assert_eq!(g.neighbours(1).unwrap(), &[0usize, 2][..]);
    assert_eq!(g.neighbours(2).unwrap(), &[1usize, 0][..]);
    assert_eq!(g.degree(3).unwrap(), 0);
    assert_eq!(g.degree(9), Err(GraphError::NodeOutOfRange(9, 4)));
}

#[test]
fn from_edges_fails_on_out_of_range_edge() {
    assert!(matches!(Graph::from_edges(3, &[(0, 1), (1, 3)]), Err(GraphError::NodeOutOfRange(3, 3))));
    assert!(matches!(Graph::from_edges(0, &[]), Err(GraphError::EmptyGraph)));
}

#[test]
fn hop_distances_on_a_path() {
    let g = Graph::from_edges(5, &[(0, 1), (1, 2), (2, 3)]).unwrap();
    assert_eq!(g.topological_distance(0, 3).unwrap(), 3);
    assert_eq!(g.topological_distance(3, 0).unwrap(), 3);
    assert_eq!(g.topological_distance(2, 2).unwrap(), 0);
    assert_eq!(g.topological_distance(0, 4), Err(GraphError::NoPath(0, 4)));
    assert_eq!(g.topological_distance(7, 0), Err(GraphError::NodeOutOfRange(7, 5)));
    assert_eq!(g.topological_distance(0, 8), Err(GraphError::NodeOutOfRange(8, 5)));
}

#[test]
fn bfs_takes_the_shortcut() {
    let g = Graph::from_edges(5, &[(0, 1), (1, 2), (2, 3), (0, 3)]).unwrap();
    let d = g.bfs_distances(0).unwrap();
    assert_eq!(d, vec![Some(0), Some(1), Some(2), Some(1), None]);
    assert_eq!(g.bfs_distances(5), Err(GraphError::NodeOutOfRange(5, 5)));
}

#[test]
fn laplacian_is_degree_minus_adjacency() {
    let g = Graph::from_edges(3, &[(0, 1), (1, 2)]).unwrap();
    let l = g.laplacian();
    assert_eq!(l, vec![vec![1, -1, 0], vec![-1, 2, -1], vec![0, -1, 1]]);
    for row in &l {
        assert_eq!(row.iter().sum::<i64>(), 0);
    }
}

#[test]
fn node_id_is_a_plain_index() {
    let a = NodeId(3);
    let b = a;
    assert_eq!(a, b);
    assert_eq!(b.0, 3);
}

#[test]
fn neighbour_lists_are_symmetric_and_distances_agree_both_ways() {
    let g = Graph::from_edges(5, &[(0, 1), (1, 2), (2, 2), (1, 0), (3, 2)]).unwrap();
    for i in 0..5 {
        let ns = g.neighbours(i).unwrap();
        assert!(!ns.contains(&i));
        for &j in ns {
            assert!(g.neighbours(j).unwrap().contains(&i));
        }
        assert_eq!(g.degree(i), Ok(ns.len()));
        for j in 0..5 {
            assert_eq!(g.topological_distance(i, j), g.topological_distance(j, i).map_err(|_| GraphError::NoPath(i, j)));
        }
    }
    assert_eq!(g.topological_distance(0, 3), Ok(3));
    assert_eq!(g.topological_distance(4, 0), Err(GraphError::NoPath(4, 0)));
}
