use cannyls_bencher::integrity::{data_matches, lumpid_to_bytes};
use cannyls_bencher::report::{percentile, sort_durations, CommandKind, Summary};

#[test]
fn reflexitivity_of_lumpid_to_bytes() {
    let lumpid: u128 = 0;
    assert_eq!(lumpid_to_bytes(lumpid, 512), lumpid_to_bytes(lumpid, 512));
    assert_eq!(
        lumpid_to_bytes(lumpid, 512).as_slice(),
        &lumpid_to_bytes(lumpid, 1024).as_slice()[0..512]
    );
}

#[test]
fn size_of_lumpid_to_bytes() {
    let lumpid: u128 = 0;
    assert_eq!(lumpid_to_bytes(lumpid, 512).len(), 512);
}

#[test]
// This test should be failed with high possibility.
fn lumpid_to_bytes_is_not_injective() {
    let lumpid0: u128 = 0;
    let lumpid1: u128 = 1;
    assert_ne!(lumpid_to_bytes(lumpid0, 512), lumpid_to_bytes(lumpid1, 512));
}

#[test]
fn data_matches_accepts_the_derived_pattern_only() {
    let expected = lumpid_to_bytes(42, 64);
    assert!(data_matches(42, 64, &expected));
    let mut tampered = expected.clone();
    tampered[0] = tampered[0].wrapping_add(1);
    assert!(!data_matches(42, 64, &tampered));
    assert!(!data_matches(42, 63, &expected));
    assert!(!data_matches(43, 64, &expected));
}

#[test]
fn percentile_reads_the_saturating_cut() {
    let v = vec![10u64, 20, 30, 40];
    assert_eq!(percentile(&v, 50), 20);
    assert_eq!(percentile(&v, 90), 30);
    assert_eq!(percentile(&v, 100), 40);
    assert_eq!(percentile(&v, 0), 10);
    let single = vec![7u64];
    assert_eq!(percentile(&single, 99), 7);
}

#[test]
fn sort_durations_orders_and_keeps_everything() {
    let mut v = vec![5u64, 3, 9, 3, 1];
    sort_durations(&mut v);
    assert_eq!(v, vec![1, 3, 3, 5, 9]);
}

#[test]
fn summary_records_by_kind_in_first_seen_order() {
    let mut s = Summary::default();
    s.record(CommandKind::Put(128), 10);
    s.record(CommandKind::Get(128), 20);
    s.record(CommandKind::Put(128), 30);
    s.record(CommandKind::Delete, 40);
    assert_eq!(s.result.len(), 3);
    assert_eq!(s.result[0], (CommandKind::Put(128), vec![10, 30]));
    assert_eq!(s.result[1], (CommandKind::Get(128), vec![20]));
    assert_eq!(s.result[2], (CommandKind::Delete, vec![40]));
    assert_eq!(s.total_time, 100);
}
