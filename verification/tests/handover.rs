use zenoh_net::handover::{edge_router_zid, target_edge_ip, target_router_from_prediction};

const PREDICTION: &str = "{\"imsi\":21,\"current_cell\":13,\"predicted_target\":15,\"target_edge_ip\":\"10.6.0.2\",\"confidence\":0.9}";

#[test]
fn edge_ip_is_read_from_the_prediction() {
    assert_eq!(target_edge_ip(PREDICTION.as_bytes()), Some(b"10.6.0.2".to_vec()));
}

#[test]
fn edge_ip_runs_to_the_end_without_a_closing_quote() {
    assert_eq!(target_edge_ip(b"{\"target_edge_ip\":\"10.3.0.2"), Some(b"10.3.0.2".to_vec()));
}

#[test]
fn first_edge_ip_field_wins() {
    let text = b"\"target_edge_ip\":\"10.1.0.2\",\"target_edge_ip\":\"10.2.0.2\"";
    assert_eq!(target_edge_ip(text), Some(b"10.1.0.2".to_vec()));
}

#[test]
fn missing_edge_ip_field_reads_nothing() {
    assert_eq!(target_edge_ip(b"{\"imsi\":21,\"target_edge\":\"10.6.0.2\"}"), None);
    assert_eq!(target_edge_ip(b""), None);
}

#[test]
fn empty_edge_ip_is_read_as_empty() {
    assert_eq!(target_edge_ip(b"\"target_edge_ip\":\"\""), Some(Vec::new()));
}

#[test]
fn every_edge_address_has_its_router() {
    assert_eq!(edge_router_zid(b"10.1.0.2"), Some("c10274ef26525ccdb47947a9dfdd7f01"));
    assert_eq!(edge_router_zid(b"10.2.0.2"), Some("bef96187ff749ce9379ef4257d963e18"));
    assert_eq!(edge_router_zid(b"10.3.0.2"), Some("7c3d8f2a1b4e6590a8d2f7c3e9b1405d"));
    assert_eq!(edge_router_zid(b"10.4.0.2"), Some("2e9a4c6f8d1b3570c9e2a5d8f0b74631"));
    assert_eq!(edge_router_zid(b"10.5.0.2"), Some("5f1c9e3a7d0b8264f6c1a9e3d7b05842"));
    assert_eq!(edge_router_zid(b"10.6.0.2"), Some("8a2d6f0c4e9b1753a8d2f6c0e4b91765"));
    assert_eq!(edge_router_zid(b"10.7.0.2"), Some("3b7e1a5d9f0c4826b3e7a1d5f9c04837"));
}

#[test]
fn unknown_edge_addresses_have_no_router() {
    assert_eq!(edge_router_zid(b"10.8.0.2"), None);
    assert_eq!(edge_router_zid(b"10.0.0.2"), None);
    assert_eq!(edge_router_zid(b"10.6.0.3"), None);
    assert_eq!(edge_router_zid(b"10.6.0.2 "), None);
    assert_eq!(edge_router_zid(b""), None);
}

#[test]
fn prediction_names_its_router() {
    assert_eq!(
        target_router_from_prediction(PREDICTION.as_bytes()),
        Some("8a2d6f0c4e9b1753a8d2f6c0e4b91765")
    );
    assert_eq!(target_router_from_prediction(b"{\"target_edge_ip\":\"192.168.0.1\"}"), None);
    assert_eq!(target_router_from_prediction(b"{\"imsi\":21}"), None);
}
