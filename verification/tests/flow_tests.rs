use sec_net_engine::flow::{classify_lowercased, classify_mitre_from_label, CicRow, EdgeType, Entity, Severity};

fn row(proto: u8, port: u32, ts: &str, high: bool) -> CicRow {
    CicRow {
        src_ip: "10.0.0.1".to_string(),
        dst_ip: "10.0.0.2".to_string(),
        dst_port: port,
        protocol: proto,
        timestamp: ts.to_string(),
        label: "Benign".to_string(),
        high_packet_rate: high,
        syn_flag_cnt: 1,
        ack_flag_cnt: 0,
        tot_bwd_pkts: 0,
    }
}

#[test]
fn edge_type_names_and_codes() {
    assert_eq!(EdgeType::ObservedWith.as_str(), "ObservedWith");
    assert_eq!(EdgeType::ReverseCommunicatedWith.as_str(), "ReverseCommunicatedWith");
    assert_eq!(EdgeType::AuthenticatedTo.code(), 2);
    assert_eq!(EdgeType::ReverseCommunicatedWith.code(), 4);
}

#[test]
fn entity_display_text() {
    assert_eq!(Entity::IpAddress("1.2.3.4".to_string()).to_string(), "Ip:1.2.3.4");
    assert_eq!(Entity::User("bob".to_string()).to_string(), "User:bob");
    assert_eq!(Entity::Host("db".to_string()).to_string(), "Host:db");
}

#[test]
fn severity_order_and_text() {
    assert!(Severity::Info < Severity::Low && Severity::High < Severity::Critical);
    assert_eq!(Severity::Medium.as_str(), "MEDIUM");
    assert_eq!(Severity::Critical.rank(), 4);
}

#[test]
fn graph_edge_relation_by_protocol_and_port() {
    let (s, d, e) = row(6, 22, "", false).graph_edge();
    assert_eq!(s, Entity::IpAddress("10.0.0.1".to_string()));
    assert_eq!(d, Entity::IpAddress("10.0.0.2".to_string()));
    assert_eq!(e, EdgeType::AuthenticatedTo);
    assert_eq!(row(6, 443, "", false).graph_edge().2, EdgeType::CommunicatedWith);
    assert_eq!(row(17, 53, "", true).graph_edge().2, EdgeType::ObservedWith);
    assert_eq!(row(17, 53, "", false).graph_edge().2, EdgeType::CommunicatedWith);
    assert_eq!(row(17, 22, "", false).graph_edge().2, EdgeType::CommunicatedWith);
}

#[test]
fn epoch_timestamp_of_dataset_format() {
    assert_eq!(row(6, 80, "20/02/2018 15:00:00", false).epoch_ts(), 1_518_015_600);
    assert_eq!(row(6, 80, "  01/01/1970\t00:00:07 ", false).epoch_ts(), 7);
    assert_eq!(row(6, 80, "+2/1/1970 00:01:00", false).epoch_ts(), 86_460);
}

#[test]
fn epoch_timestamp_defaults_and_malformed() {
    assert_eq!(row(6, 80, "garbage", false).epoch_ts(), 0);
    assert_eq!(row(6, 80, "20-02-2018 15:00:00", false).epoch_ts(), 0);
    assert_eq!(row(6, 80, "20/02/2018 15:00", false).epoch_ts(), 0);
    // unparsable fields fall back to 1 / 1 / 2018 and 0
    assert_eq!(row(6, 80, "x/y/z a:b:c", false).epoch_ts(), 48 * 365 * 86_400);
}

#[test]
fn epoch_timestamp_overflow_is_reported() {
    assert_eq!(row(6, 80, "01/01/1969 00:00:00", false).checked_epoch_ts(), None);
    assert_eq!(row(6, 80, "00/01/2018 00:00:00", false).checked_epoch_ts(), None);
    assert_eq!(row(6, 80, "01/01/18446744073709551615 00:00:00", false).checked_epoch_ts(), None);
    assert_eq!(row(6, 80, "01/01/1970 00:00:18446744073709551616", false).checked_epoch_ts(), Some(0));
    assert_eq!(row(6, 80, "01/01/1970 00:00:18446744073709551615", false).checked_epoch_ts(), Some(u64::MAX));
}

#[test]
fn port_and_protocol_buckets() {
    assert_eq!(row(6, 8443, "", false).port_group(), 1);
    assert_eq!(row(6, 3389, "", false).port_group(), 2);
    assert_eq!(row(17, 53, "", false).port_group(), 3);
    assert_eq!(row(6, 25, "", false).port_group(), 4);
    assert_eq!(row(6, 50000, "", false).port_group(), 0);
    assert_eq!(row(6, 1, "", false).protocol_bucket(), 0);
    assert_eq!(row(17, 1, "", false).protocol_bucket(), 1);
    assert_eq!(row(1, 1, "", false).protocol_bucket(), 2);
    let r = row(6, 80, "", false);
    assert!(r.syn_only());
    assert!(r.zero_backward());
}

#[test]
fn mitre_classification_uses_first_keyword_of_lowercased_label() {
    let t = classify_mitre_from_label("DDoS attacks-LOIC-HTTP").unwrap();
    assert_eq!(t.trigger_token, "ddos");
    assert_eq!(t.tactic_id, "TA0040");
    assert_eq!(t.technique, "T1498 – Network Denial of Service");
    // "bruteforce" contains "rce", which precedes "brute" in the vocabulary
    let t = classify_mitre_from_label("FTP-BruteForce").unwrap();
    assert_eq!(t.trigger_token, "rce");
    assert_eq!(t.tactic_name, "Execution");
    let t = classify_mitre_from_label("Brute-Web").unwrap();
    assert_eq!(t.trigger_token, "brute");
    assert_eq!(t.tactic_name, "Credential Access");
    let t = classify_mitre_from_label("SQL Injection").unwrap();
    assert_eq!(t.trigger_token, "injection");
    assert_eq!(t.tactic_id, "TA0002");
    let t = classify_mitre_from_label("Infilteration").unwrap();
    assert_eq!(t.trigger_token, "infilter");
    let t = classify_mitre_from_label("DoS attacks-Hulk").unwrap();
    assert_eq!(t.trigger_token, "dos");
    assert!(classify_mitre_from_label("Benign").is_none());
    assert!(classify_mitre_from_label("").is_none());
}

#[test]
fn keyword_search_on_lowercased_labels() {
    let t = classify_lowercased("ftp-bruteforce").unwrap();
    assert_eq!(t.trigger_token, "rce");
    let t = classify_lowercased("ddos attacks-loic-http").unwrap();
    assert_eq!(t.trigger_token, "ddos");
    // the search itself does not fold case
    assert!(classify_lowercased("BOT").is_none());
    assert_eq!(classify_mitre_from_label("BOT").unwrap().trigger_token, "bot");
    assert!(classify_lowercased("benign").is_none());
}
