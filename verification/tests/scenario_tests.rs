use sec_net_engine::detection::{is_attack_label, DetectionCounts};
use sec_net_engine::flow::classify_mitre_from_label;
use sec_net_engine::regularizer::{incident_neighbours, NodeMeta, NodeRegistry, SimilarityBasis};
use sec_net_engine::topology::SpectralTopology;

const FLOWS: [(&str, &str, &str, bool); 20] = [
    ("Benign", "172.31.69.11", "172.31.69.20", false),
    ("Benign", "172.31.69.12", "172.31.69.2", false),
    ("Benign", "172.31.69.30", "54.239.28.85", false),
    ("Benign", "172.31.69.50", "172.31.69.2", false),
    ("Benign", "172.31.69.51", "52.84.100.12", false),
    ("Benign", "172.31.69.52", "172.31.69.10", false),
    ("Infilteration", "172.31.69.95", "172.31.69.20", false),
    ("Bot", "172.31.69.88", "52.70.12.33", true),
    ("DoS attacks-Hulk", "172.31.69.200", "172.31.69.10", true),
    ("DoS attacks-GoldenEye", "172.31.69.201", "172.31.69.10", true),
    ("DDoS attacks-LOIC-HTTP", "172.31.69.210", "172.31.69.10", true),
    ("Brute Force -Web", "172.31.69.180", "172.31.69.10", true),
    ("SQL Injection", "172.31.69.181", "172.31.69.10", true),
    ("XSS", "172.31.69.182", "172.31.69.10", false),
    ("Brute Force -XSS", "172.31.69.190", "172.31.69.15", true),
    ("FTP-BruteForce", "172.31.69.191", "172.31.69.14", true),
    ("Heartbleed", "172.31.69.99", "172.31.69.16", true),
    ("DoS attacks-SlowHTTPTest", "172.31.69.202", "172.31.69.10", true),
    ("DoS attacks-Slowloris", "172.31.69.203", "172.31.69.10", true),
    ("DDoS attacks-LOIC-UDP", "172.31.69.211", "172.31.69.10", true),
];

fn dataset_edges() -> Vec<(String, String)> {
    FLOWS.iter().map(|(_, s, d, _)| (format!("Ip:{s}"), format!("Ip:{d}"))).collect()
}

#[test]
fn sample_topology_has_29_entities_in_9_components() {
    let t = SpectralTopology::build(&dataset_edges());
    assert_eq!(t.graph.num_nodes(), 29);
    let mut component = vec![usize::MAX; 29];
    let mut count = 0;
    for start in 0..29 {
        if component[start] != usize::MAX {
            continue;
        }
        let d = t.graph.bfs_distances(start).unwrap();
        for (node, dist) in d.iter().enumerate() {
            if dist.is_some() {
                component[node] = count;
            }
        }
        count += 1;
    }
    assert_eq!(count, 9);
}

#[test]
fn sample_report_pairs_resolve_to_listed_indices() {
    let t = SpectralTopology::build(&dataset_edges());
    let pairs = vec![
        ("Ip:172.31.69.200".to_string(), "Ip:172.31.69.10".to_string(), "hulk→victim".to_string()),
        ("Ip:172.31.69.210".to_string(), "Ip:172.31.69.10".to_string(), "loic→victim".to_string()),
        ("Ip:172.31.69.88".to_string(), "Ip:52.70.12.33".to_string(), "bot→c2".to_string()),
    ];
    let r = t.resolve_pairs(&pairs);
    let idx: Vec<(usize, usize)> = r.iter().map(|(u, v, _)| (*u, *v)).collect();
    assert_eq!(idx, vec![(14, 10), (16, 10), (12, 13)]);
    for (u, v) in idx {
        assert_eq!(t.graph.topological_distance(u, v).unwrap(), 1);
    }
}

#[test]
fn sample_detection_metrics() {
    let mut c = DetectionCounts::new();
    for (label, _, _, detected) in FLOWS.iter() {
        assert!(c.record(*detected, is_attack_label(label)));
    }
    assert_eq!((c.tp, c.fp, c.tn, c.fn_), (12, 0, 6, 2));
}

#[test]
fn sample_mitre_tactics() {
    let expect = [
        ("Bot", "TA0011", "bot"),
        ("DoS attacks-Hulk", "TA0040", "dos"),
        ("DDoS attacks-LOIC-HTTP", "TA0040", "ddos"),
        ("Brute Force -Web", "TA0002", "rce"),
        ("SQL Injection", "TA0002", "injection"),
        ("Heartbleed", "TA0001", "heartbleed"),
    ];
    for (label, id, token) in expect {
        let t = classify_mitre_from_label(label).unwrap();
        assert_eq!((t.tactic_id.as_str(), t.trigger_token.as_str()), (id, token), "{label}");
    }
}

#[test]
fn disconnection_drill_bridges_by_common_gateway() {
    let mut reg = NodeRegistry::new();
    for id in 0u32..3 {
        reg.register_node(id, NodeMeta { subnet_prefix: 0xC0A8_0100, prefix_len: 24, gateway: Some(100), as_path: vec![64512, 64513], infra_parent: Some(0) });
    }
    for id in 3u32..6 {
        reg.register_node(id, NodeMeta { subnet_prefix: 0xC0A8_0200, prefix_len: 24, gateway: Some(101), as_path: vec![64514, 64513], infra_parent: Some(1) });
    }
    let split = vec![(0, 1), (1, 2), (3, 4), (4, 5)];
    let cs = reg.candidate_virtual_edges(6, &split).unwrap();
    let bridged: Vec<(u32, u32)> = cs
        .iter()
        .filter(|c| matches!(c.basis, SimilarityBasis::CommonGateway { .. }))
        .map(|c| (c.src, c.dst))
        .collect();
    assert_eq!(bridged, vec![(0, 2), (3, 5)]);

    let bridge = vec![(0u32, 1u32), (1, 2), (3, 4), (4, 5), (2, 3)];
    let virt = vec![(0u32, 2u32), (3, 5)];
    let order: Vec<usize> = incident_neighbours(&bridge, 2)
        .into_iter()
        .chain(incident_neighbours(&virt, 2))
        .map(|(_, n)| n)
        .collect();
    assert_eq!(order, vec![1, 3, 0]);
}
