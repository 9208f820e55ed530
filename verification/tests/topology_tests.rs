use sec_net_engine::topology::{intern_edges, EntityIndex, NodeInterner, SpectralTopology};

fn edges(list: &[(&str, &str)]) -> Vec<(String, String)> {
    list.iter().map(|(a, b)| (a.to_string(), b.to_string())).collect()
}

#[test]
fn entity_index_interns_once() {
    let mut idx = EntityIndex::new();
    assert_eq!(idx.intern("a"), 0);
    assert_eq!(idx.intern("b"), 1);
    assert_eq!(idx.intern("a"), 0);
    assert_eq!(idx.len(), 2);
    assert_eq!(idx.lookup("b"), Some(1));
    assert_eq!(idx.lookup("c"), None);
    assert_eq!(idx.name_at(1), "b");
}

#[test]
fn node_interner_ids_start_at_one() {
    let mut it = NodeInterner::new();
    assert_eq!(it.get_or_intern("Ip:10.0.0.1"), 1);
    assert_eq!(it.get_or_intern("Ip:10.0.0.2"), 2);
    assert_eq!(it.get_or_intern("Ip:10.0.0.1"), 1);
    assert_eq!(it.get_or_intern("Ip:10.0.0.3"), 3);
}

#[test]
fn interned_edges_follow_first_appearance() {
    let e = edges(&[("x", "y"), ("z", "x"), ("y", "y")]);
    let (idx, raw) = intern_edges(&e);
    assert_eq!(raw, vec![(0, 1), (2, 0), (1, 1)]);
    assert_eq!(idx.name_at(2), "z");
}

#[test]
fn topology_joins_observed_entities() {
    let e = edges(&[("a", "b"), ("b", "c"), ("a", "b"), ("d", "d")]);
    let t = SpectralTopology::build(&e);
    assert_eq!(t.graph.num_nodes(), 4);
    assert_eq!(t.graph.neighbours(1).unwrap(), &[0usize, 2][..]);
    assert_eq!(t.graph.degree(3).unwrap(), 0);
    assert_eq!(t.graph.topological_distance(0, 2).unwrap(), 2);
}

#[test]
fn topology_has_at_least_two_nodes() {
    let t = SpectralTopology::build(&edges(&[("solo", "solo")]));
    assert_eq!(t.entities.len(), 1);
    assert_eq!(t.graph.num_nodes(), 2);
    assert_eq!(t.graph.degree(0), Ok(0));
    assert_eq!(t.graph.degree(1), Ok(0));
    let empty = SpectralTopology::build(&Vec::new());
    assert_eq!(empty.graph.num_nodes(), 2);
    assert_eq!(empty.graph.degree(0), Ok(0));
    assert_eq!(empty.graph.degree(1), Ok(0));
}

#[test]
fn report_pairs_resolve_by_name() {
    let t = SpectralTopology::build(&edges(&[("a", "b"), ("b", "c")]));
    let pairs = vec![
        ("a".to_string(), "c".to_string(), "first".to_string()),
        ("a".to_string(), "zz".to_string(), "dropped".to_string()),
        ("c".to_string(), "b".to_string(), "last".to_string()),
    ];
    let r = t.resolve_pairs(&pairs);
    assert_eq!(r, vec![(0, 2, "first".to_string()), (2, 1, "last".to_string())]);
}
