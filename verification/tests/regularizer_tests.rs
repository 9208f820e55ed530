use sec_net_engine::regularizer::{
    incident_neighbours, push_bounded, regularizer_physical_edges, surviving_virtual_edges, virtual_edge_alive,
    NodeMeta, NodeRegistry,
    SimilarityBasis, VirtualEdgeCandidate, HISTORY_WINDOW,
};

fn meta(subnet: u32, len: u8, gw: Option<u32>, path: &[u32], parent: Option<u32>) -> NodeMeta {
    NodeMeta { subnet_prefix: subnet, prefix_len: len, gateway: gw, as_path: path.to_vec(), infra_parent: parent }
}

fn demo_registry() -> NodeRegistry {
    let mut reg = NodeRegistry::new();
    for id in 0u32..3 {
        reg.register_node(id, meta(0xC0A8_0100, 24, Some(100), &[64512, 64513], Some(0)));
    }
    for id in 3u32..6 {
        reg.register_node(id, meta(0xC0A8_0200, 24, Some(101), &[64514, 64513], Some(1)));
    }
    reg
}

#[test]
fn similarity_priority_order() {
    let reg = demo_registry();
    assert_eq!(reg.similarity(0, 1), SimilarityBasis::CommonGateway { gateway_id: 100 });
    assert_eq!(reg.similarity(0, 3), SimilarityBasis::AsPathOverlap { shared: 1, total: 3 });
    assert_eq!(reg.similarity(0, 42), SimilarityBasis::Unscored);

    let mut reg = NodeRegistry::new();
    reg.register_node(1, meta(0x0A00_0000, 8, Some(1), &[], Some(7)));
    reg.register_node(2, meta(0x0A01_0000, 16, Some(2), &[], Some(7)));
    reg.register_node(3, meta(0x0A01_0000, 16, None, &[], None));
    reg.register_node(4, meta(0x0B00_0000, 8, None, &[], None));
    assert_eq!(reg.similarity(1, 2), SimilarityBasis::InfrastructureParent { parent_node: 7 });
    assert_eq!(reg.similarity(1, 3), SimilarityBasis::SharedSubnet { prefix_len: 8 });
    assert_eq!(reg.similarity(3, 1), SimilarityBasis::SharedSubnet { prefix_len: 8 });
    assert_eq!(reg.similarity(3, 4), SimilarityBasis::Unscored);
    assert!(reg.get(4).is_some() && reg.get(5).is_none());
}

#[test]
fn zero_length_prefixes_always_share_a_subnet() {
    let mut reg = NodeRegistry::new();
    reg.register_node(1, meta(1, 0, None, &[1], None));
    reg.register_node(2, meta(2, 0, None, &[2], None));
    assert_eq!(reg.similarity(1, 2), SimilarityBasis::SharedSubnet { prefix_len: 0 });
}

#[test]
fn as_path_overlap_counts_distinct_numbers() {
    let mut reg = NodeRegistry::new();
    reg.register_node(1, meta(0x0A00_0000, 32, None, &[5, 5, 6, 7], None));
    reg.register_node(2, meta(0x0B00_0000, 32, None, &[7, 6, 8, 8], None));
    assert_eq!(reg.similarity(1, 2), SimilarityBasis::AsPathOverlap { shared: 2, total: 4 });
}

#[test]
fn overlong_prefix_is_undefined() {
    let mut reg = NodeRegistry::new();
    reg.register_node(0, meta(0, 40, None, &[], None));
    reg.register_node(1, meta(0, 24, None, &[], None));
    reg.register_node(2, meta(0, 40, Some(9), &[], None));
    reg.register_node(3, meta(0, 40, Some(9), &[], None));
    assert!(!reg.similarity_is_defined(0, 1));
    assert!(reg.similarity_is_defined(2, 3));
    assert_eq!(reg.candidate_virtual_edges(2, &vec![]), Err((0, 1)));
    assert_eq!(reg.candidate_virtual_edges(2, &vec![(1, 0)]), Ok(vec![]));
}

#[test]
fn candidates_skip_physical_pairs_in_order() {
    let reg = demo_registry();
    let phys = vec![(0, 1), (1, 2), (3, 4), (4, 5)];
    let cs = reg.candidate_virtual_edges(6, &phys).unwrap();
    let pairs: Vec<(u32, u32)> = cs.iter().map(|c| (c.src, c.dst)).collect();
    assert_eq!(pairs, vec![(0, 2), (0, 3), (0, 4), (0, 5), (1, 3), (1, 4), (1, 5), (2, 3), (2, 4), (2, 5), (3, 5)]);
    assert_eq!(cs[0], VirtualEdgeCandidate { src: 0, dst: 2, basis: SimilarityBasis::CommonGateway { gateway_id: 100 } });
    assert_eq!(cs[1].basis, SimilarityBasis::AsPathOverlap { shared: 1, total: 3 });
    assert_eq!(cs[10].basis, SimilarityBasis::CommonGateway { gateway_id: 101 });
}

#[test]
fn virtual_edges_expire_after_ten_ticks() {
    assert!(virtual_edge_alive(9, 0));
    assert!(!virtual_edge_alive(10, 0));
    assert!(virtual_edge_alive(3, 5));
    assert!(!virtual_edge_alive(u64::MAX, 0));
}

#[test]
fn history_window_keeps_the_latest_values() {
    let mut h: Vec<u32> = Vec::new();
    for i in 0..200u32 {
        push_bounded(&mut h, i);
        assert!(h.len() <= HISTORY_WINDOW);
    }
    assert_eq!(h.len(), 128);
    assert_eq!(h[0], 72);
    assert_eq!(*h.last().unwrap(), 199);
}

#[test]
fn physical_edges_drop_self_loops() {
    let raw = vec![(0usize, 1usize), (2, 2), (1, 3)];
    assert_eq!(regularizer_physical_edges(&raw), vec![(0u32, 1u32), (1, 3)]);
}

#[test]
fn incident_neighbours_in_edge_order() {
    let e = vec![(0u32, 1u32), (2, 1), (3, 4), (1, 1)];
    assert_eq!(incident_neighbours(&e, 1), vec![(0, 0), (1, 2), (3, 1)]);
    assert_eq!(incident_neighbours(&e, 9), vec![]);
}

#[test]
fn decay_keeps_young_edges_in_order() {
    let injected = vec![0u64, 5, 10, 20, 25];
    assert_eq!(surviving_virtual_edges(&injected, 15), vec![2, 3, 4]);
    assert_eq!(surviving_virtual_edges(&injected, 30), vec![4]);
    assert_eq!(surviving_virtual_edges(&injected, 14), vec![1, 2, 3, 4]);
    assert_eq!(surviving_virtual_edges(&Vec::new(), 30), Vec::<usize>::new());
}
