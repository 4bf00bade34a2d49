use bdd_rust_multiprotocol_server::telemetry::{ProtocolTelemetry, Telemetry};

fn names(t: &Telemetry) -> Vec<String> {
    t.snapshot().into_iter().map(|(name, _)| name).collect()
}

#[test]
fn new_telemetry_is_empty() {
    let t = Telemetry::new();
    assert!(t.snapshot().is_empty());
    assert!(t.get("rest").is_none());
    let d = Telemetry::default();
    assert!(d.snapshot().is_empty());
}

#[test]
fn record_counts_requests_failures_durations_and_bytes() {
    let mut t = Telemetry::new();
    t.record("fix", true, 1_500, 10, 20);
    t.record("fix", false, 2_500, 1, 2);
    t.record("fix", true, 0, 0, 0);
    let c: ProtocolTelemetry = t.get("fix").unwrap();
    assert_eq!(c.requests, 3);
    assert_eq!(c.failures, 1);
    assert_eq!(c.total_duration_ns, 4_000);
    assert_eq!(c.request_bytes, 11);
    assert_eq!(c.response_bytes, 22);
}

#[test]
fn snapshot_lists_protocols_in_ascending_order() {
    let mut t = Telemetry::new();
    for p in ["rest", "grpc", "health", "fix", "graphql", "rest", "fix"] {
        t.record(p, true, 1, 1, 1);
    }
    assert_eq!(names(&t), vec!["fix", "graphql", "grpc", "health", "rest"]);
    let snap = t.snapshot();
    assert_eq!(snap[0].1.requests, 2);
    assert_eq!(snap[4].1.requests, 2);
    assert_eq!(snap[1].1.requests, 1);
}

#[test]
fn prefix_names_sort_first_and_non_ascii_after_ascii() {
    let mut t = Telemetry::new();
    t.record("rest-v2", true, 0, 0, 0);
    t.record("rest", true, 0, 0, 0);
    t.record("été", true, 0, 0, 0);
    t.record("Zed", true, 0, 0, 0);
    assert_eq!(names(&t), vec!["Zed", "rest", "rest-v2", "été"]);
}

#[test]
fn recording_one_protocol_leaves_others_alone() {
    let mut t = Telemetry::new();
    t.record("grpc", true, 5, 6, 7);
    let before = t.get("grpc").unwrap();
    t.record("rest", false, 9, 9, 9);
    let after = t.get("grpc").unwrap();
    assert_eq!(before.requests, after.requests);
    assert_eq!(before.total_duration_ns, after.total_duration_ns);
    assert_eq!(t.get("rest").unwrap().failures, 1);
}

#[test]
fn durations_beyond_64_bits_are_cut() {
    let mut t = Telemetry::new();
    t.record("fix", true, (1u128 << 64) + 5, 0, 0);
    assert_eq!(t.get("fix").unwrap().total_duration_ns, 5);
}

#[test]
fn can_record_detects_overflow() {
    let mut t = Telemetry::new();
    assert!(t.can_record("rest", 0, u64::MAX, 0));
    t.record("rest", true, 0, u64::MAX, 0);
    assert!(!t.can_record("rest", 0, 1, 0));
    assert!(t.can_record("rest", 0, 0, u64::MAX));
    assert!(t.can_record("grpc", 0, u64::MAX, u64::MAX));
}

#[test]
fn failures_never_exceed_requests() {
    let mut t = Telemetry::new();
    for i in 0..10u64 {
        t.record("graphql", i % 3 == 0, 1, 1, 1);
    }
    let c = t.get("graphql").unwrap();
    assert_eq!(c.requests, 10);
    assert_eq!(c.failures, 6);
    assert!(c.failures <= c.requests);
}

#[test]
fn snapshot_totals_are_sums_over_recorded_requests() {
    let samples: [(&str, bool, u128, u64, u64); 6] = [
        ("rest", true, 100, 3, 12),
        ("grpc", false, 50, 8, 12),
        ("rest", false, 200, 0, 12),
        ("fix", true, 7, 40, 55),
        ("grpc", true, 25, 2, 12),
        ("rest", true, 1, 5, 12),
    ];
    let mut t = Telemetry::default();
    for (p, ok, d, q, b) in samples {
        t.record(p, ok, d, q, b);
    }
    let snap = t.snapshot();
    let keys: Vec<&str> = snap.iter().map(|(n, _)| n.as_str()).collect();
    assert_eq!(keys, vec!["fix", "grpc", "rest"]);
    let rest = &snap[2].1;
    assert_eq!(rest.requests, 3);
    assert_eq!(rest.failures, 1);
    assert_eq!(rest.total_duration_ns, 301);
    assert_eq!(rest.request_bytes, 8);
    assert_eq!(rest.response_bytes, 36);
    let grpc = &snap[1].1;
    assert_eq!((grpc.requests, grpc.failures, grpc.request_bytes), (2, 1, 10));
}

#[test]
fn counters_never_decrease_between_snapshots() {
    let mut t = Telemetry::new();
    t.record("rest", true, 10, 1, 1);
    t.record("fix", false, 10, 1, 1);
    let first = t.snapshot();
    t.record("grpc", true, 0, 0, 0);
    t.record("rest", false, 0, 0, 0);
    let second = t.snapshot();
    for (name, before) in &first {
        let after = &second.iter().find(|(n, _)| n == name).unwrap().1;
        assert!(after.requests >= before.requests);
        assert!(after.failures >= before.failures);
        assert!(after.total_duration_ns >= before.total_duration_ns);
        assert!(after.request_bytes >= before.request_bytes);
        assert!(after.response_bytes >= before.response_bytes);
    }
}
