use sec_net_engine::blast::BlastRadiusSearch;
use sec_net_engine::detection::{class_breakdown, is_attack_label, select_neighbour_ids, tally, DetectionCounts};
use sec_net_engine::error::GraphError;
use sec_net_engine::spectrum::EmbeddingShape;

#[test]
fn confusion_counts() {
    let mut c = DetectionCounts::new();
    assert!(c.record(true, true));
    assert!(c.record(true, false));
    assert!(c.record(false, false));
    assert!(c.record(false, false));
    assert!(c.record(false, true));
    assert_eq!(c, DetectionCounts { tp: 1, fp: 1, tn: 2, fn_: 1 });
    let mut full = DetectionCounts { tp: u32::MAX, fp: 0, tn: 0, fn_: 0 };
    assert!(!full.record(true, true));
    assert_eq!(full.tp, u32::MAX);
}

#[test]
fn attack_labels() {
    assert!(!is_attack_label("Benign"));
    assert!(is_attack_label("benign"));
    assert!(is_attack_label("Bot"));
}

#[test]
fn neighbour_ids_are_filtered_then_truncated() {
    assert_eq!(select_neighbour_ids(&vec![4, 9, 1, 2, 0], 5, 3), vec![4, 1, 2]);
    assert_eq!(select_neighbour_ids(&vec![7, 1], 5, 3), vec![1]);
    assert_eq!(select_neighbour_ids(&vec![], 5, 3), Vec::<usize>::new());
}

fn strings(v: &[&str]) -> Vec<String> {
    v.iter().map(|s| s.to_string()).collect()
}

#[test]
fn blast_radius_search_levels() {
    // a -> b, a -> c, b -> d, d -> e ; two levels deep
    let mut s = BlastRadiusSearch::new("a", 2);
    let mut queries = Vec::new();
    while let Some(q) = s.pending_query() {
        let dsts = match q.as_str() {
            "a" => strings(&["b", "c", "a"]),
            "b" => strings(&["d"]),
            "d" => strings(&["e"]),
            _ => Vec::new(),
        };
        queries.push(q);
        s.absorb(&dsts);
    }
    assert_eq!(queries, strings(&["a", "b", "c"]));
    assert_eq!(s.visited(), strings(&["a", "b", "c", "d"]));
}

#[test]
fn blast_radius_zero_depth_is_seed_only() {
    let mut s = BlastRadiusSearch::new("seed", 0);
    assert_eq!(s.pending_query(), None);
    assert_eq!(s.visited(), strings(&["seed"]));
}

#[test]
fn embedding_shape_checks() {
    assert_eq!(EmbeddingShape::plan(1, None), Err(GraphError::InsufficientNodesForEmbedding(1)));
    let s = EmbeddingShape::plan(5, Some(3)).unwrap();
    assert_eq!(s, EmbeddingShape { num_nodes: 5, num_dims: 3 });
    assert_eq!(EmbeddingShape::plan(5, Some(9)).unwrap().num_dims, 5);
    assert_eq!(EmbeddingShape::plan(4, None).unwrap().num_dims, 4);
    assert!(s.has_fiedler_column());
    assert_eq!(s.check_spectral_pair(0, 7), Err(GraphError::NodeOutOfRange(7, 5)));
    assert_eq!(s.check_spectral_pair(6, 7), Err(GraphError::NodeOutOfRange(6, 5)));
    assert_eq!(s.check_pair(1, 2), Ok(()));
    assert_eq!(s.check_coordinate(1, 3), Err(GraphError::DimensionOutOfRange(3, 3)));
    assert_eq!(s.check_coordinate(9, 3), Err(GraphError::NodeOutOfRange(9, 5)));
    let thin = EmbeddingShape::plan(5, Some(1)).unwrap();
    assert_eq!(thin.check_spectral_pair(0, 1), Err(GraphError::InsufficientNodesForEmbedding(1)));
    assert_eq!(thin.check_fiedler(), Err(GraphError::InsufficientNodesForEmbedding(1)));
    assert!(!thin.has_fiedler_column());
    assert_eq!(s.fiedler_column(&vec![false, false, true]), 2);
    assert_eq!(s.fiedler_column(&vec![false, false, false]), 1);
}

#[test]
fn tally_counts_every_cell() {
    let points = vec![
        (true, "DDoS attacks-LOIC-HTTP".to_string()),
        (true, "Benign".to_string()),
        (false, "Benign".to_string()),
        (false, "Benign".to_string()),
        (false, "Bot".to_string()),
        (true, "Bot".to_string()),
    ];
    assert_eq!(tally(&points), Some(DetectionCounts { tp: 2, fp: 1, tn: 2, fn_: 1 }));
    assert_eq!(tally(&Vec::new()), Some(DetectionCounts { tp: 0, fp: 0, tn: 0, fn_: 0 }));
}

#[test]
fn class_breakdown_in_order_of_first_appearance() {
    let points = vec![
        (true, "Bot".to_string()),
        (false, "Benign".to_string()),
        (false, "Bot".to_string()),
        (true, "DoS attacks-Hulk".to_string()),
        (false, "Benign".to_string()),
    ];
    let b = class_breakdown(&points).unwrap();
    assert_eq!(
        b,
        vec![
            ("Bot".to_string(), 2, 1),
            ("Benign".to_string(), 2, 0),
            ("DoS attacks-Hulk".to_string(), 1, 1),
        ]
    );
    assert_eq!(class_breakdown(&Vec::new()), Some(Vec::new()));
}
