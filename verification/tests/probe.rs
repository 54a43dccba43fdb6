use zenoh_net::error::RoutingError;
use zenoh_net::probe::{flight_time_nanos, read_probe, MyMH, MySH, Probe};

#[test]
fn a_probe_header_is_read_little_endian() {
    let mut payload = Vec::new();
    payload.extend_from_slice(&7u64.to_le_bytes());
    payload.extend_from_slice(&1_700_000_000_123_456_789u128.to_le_bytes());
    payload.extend_from_slice(&[0u8; 8]);
    assert_eq!(
        read_probe(&payload),
        Probe { seq: 7, sent_at: 1_700_000_000_123_456_789, remaining: 8 }
    );
}

#[test]
fn a_bare_header_leaves_nothing() {
    let mut payload = vec![0xffu8; 8];
    payload.extend_from_slice(&[1u8; 16]);
    let p = read_probe(&payload);
    assert_eq!(p.seq, u64::MAX);
    assert_eq!(p.sent_at, u128::from_le_bytes([1u8; 16]));
    assert_eq!(p.remaining, 0);
}

#[test]
fn flight_time_is_the_difference() {
    assert_eq!(flight_time_nanos(1_500, 1_000), 500);
    assert_eq!(flight_time_nanos(42, 42), 0);
}

#[test]
fn flight_time_is_truncated_to_64_bits() {
    let sent = 5u128;
    let now = sent + (1u128 << 64) + 3;
    assert_eq!(flight_time_nanos(now, sent), 3);
}

#[test]
fn handlers_are_made() {
    let _sh = MySH::new();
    let _mh = MyMH::new();
}

#[test]
fn routing_error_keeps_its_reason() {
    let e = RoutingError::new("unknown face");
    assert_eq!(e.message(), "unknown face");
    let parsed: RoutingError = "no route".parse().unwrap();
    assert_eq!(parsed.message(), "no route");
}
