use ebpf_studio::latency::{latency_bucket, LatencyRange};

#[test]
fn bucket_edges_are_exact_and_do_not_turn_unknown_latency_into_zero() {
    for bucket in 0..=63 {
        let range = LatencyRange::from_buckets(bucket, bucket).unwrap();
        assert!(!range.contains(None));
        assert!(range.contains(Some(range.min_ns)));
        if range.min_ns > 0 {
            assert!(!range.contains(Some(range.min_ns - 1)));
        }
        if let Some(end) = range.max_exclusive_ns {
            assert!(range.contains(Some(end - 1)));
            assert!(!range.contains(Some(end)));
            assert_eq!(latency_bucket(end - 1), bucket);
        } else {
            assert!(range.contains(Some(u64::MAX)));
        }
    }
    assert!(LatencyRange::from_buckets(0, 0).unwrap().contains(Some(0)));
    assert!(LatencyRange::from_buckets(8, 7).is_none());
    assert!(LatencyRange::from_buckets(63, 64).is_none());
}

#[test]
fn buckets_are_powers_of_two_with_zero_in_the_first() {
    assert_eq!(latency_bucket(0), 0);
    assert_eq!(latency_bucket(1), 0);
    assert_eq!(latency_bucket(2), 1);
    assert_eq!(latency_bucket(3), 1);
    assert_eq!(latency_bucket(4), 2);
    assert_eq!(latency_bucket(1023), 9);
    assert_eq!(latency_bucket(1024), 10);
    assert_eq!(latency_bucket(u64::MAX), 63);
}

#[test]
fn multi_bucket_range_selects_exactly_its_buckets() {
    let range = LatencyRange::from_buckets(2, 4).unwrap();
    assert_eq!(range.min_ns, 4);
    assert_eq!(range.max_exclusive_ns, Some(32));
    assert!(!range.contains(Some(3)));
    assert!(range.contains(Some(4)));
    assert!(range.contains(Some(31)));
    assert!(!range.contains(Some(32)));
    let open = LatencyRange::from_buckets(62, 63).unwrap();
    assert_eq!(open.min_ns, 1u64 << 62);
    assert_eq!(open.max_exclusive_ns, None);
}

#[test]
fn range_labels_name_the_interval() {
    assert_eq!(LatencyRange::from_buckets(1, 3).unwrap().label(), "[2, 16) ns");
    assert_eq!(LatencyRange::from_buckets(0, 0).unwrap().label(), "[0, 2) ns");
    assert_eq!(LatencyRange::from_buckets(63, 63).unwrap().label(), format!("≥ {} ns", 1u64 << 63));
}
