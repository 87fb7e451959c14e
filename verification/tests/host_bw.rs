use ebpf_studio::host_bw::{busy_time, ActivityTimeline, BusyTime, IntervalUnion, IoOperation, TransferBytes};

/// MiB/s over a wall-clock denominator, unavailable for an unknown or empty one.
fn rate(bytes: u64, ns: Option<u64>) -> Option<f64> {
    ns.filter(|n| *n > 0).map(|n| bytes as f64 * 1e9 / n as f64 / 1_048_576.)
}

fn rates(bytes: &TransferBytes, b: &BusyTime) -> ([Option<f64>; 3], [Option<f64>; 3]) {
    let counts = [bytes.total(), bytes.read, bytes.write];
    (counts.map(|c| rate(c, Some(b.duration_ns))), counts.map(|c| rate(c, b.busy_ns)))
}

#[test]
fn overlap_unordered_adjacency_and_boundaries_use_union_not_latency_sum() {
    let mut a = ActivityTimeline { verified_complete: true, ..Default::default() };
    for (x, y) in [(7, 10), (1, 4), (3, 8), (10, 11), (20, 21)] {
        a.record_activity((8, 0), x * 1_000_000_000, y * 1_000_000_000);
    }
    let bytes = TransferBytes { read: 10 * 1_048_576, ..Default::default() };
    let b = busy_time(&a, (2_000_000_000, 12_000_000_000), &vec![(8, 0)]);
    assert_eq!(b.busy_ns, Some(9_000_000_000));
    assert_eq!(b.idle_ns, Some(1_000_000_000));
    let (with_idle, without_idle) = rates(&bytes, &b);
    assert_eq!(with_idle, [Some(1.), Some(1.), Some(0.)]);
    assert!((without_idle[0].unwrap() - 10. / 9.).abs() < 1e-12);
}

#[test]
fn process_filter_changes_bytes_but_other_process_activity_still_excludes_idle() {
    let mut a = ActivityTimeline { verified_complete: true, ..Default::default() };
    a.record_activity((8, 0), 0, 2_000_000_000); // selected process
    a.record_activity((8, 0), 2_000_000_000, 8_000_000_000); // another process
    a.record_activity((8, 1), 0, 10_000_000_000);
    let bytes = TransferBytes { read: 8 * 1_048_576, ..Default::default() };
    let b = busy_time(&a, (0, 10_000_000_000), &vec![(8, 0)]);
    assert_eq!(b.idle_ns, Some(2_000_000_000));
    let (_, without_idle) = rates(&bytes, &b);
    assert_eq!(without_idle[1], Some(1.));
    let all = busy_time(&a, (0, 10_000_000_000), &vec![(8, 0), (8, 1)]);
    assert_eq!(all.busy_ns, Some(10_000_000_000)); // wall-clock union, not device-seconds
}

#[test]
fn sampled_unknown_empty_and_zero_denominators_never_invent_idle_or_nan() {
    let mut a = ActivityTimeline::default();
    a.record_activity((8, 0), 1, 2);
    let none = TransferBytes::default();
    let b = busy_time(&a, (0, 10), &vec![(8, 0)]);
    assert_eq!(b.observed_busy_ns, 1);
    assert_eq!(b.idle_ns, None);
    assert_eq!(rates(&none, &b).1, [None; 3]);
    let z = busy_time(&a, (2, 2), &vec![(8, 0)]);
    assert_eq!(rates(&none, &z).0, [None; 3]);
    a.verified_complete = true;
    let empty = busy_time(&a, (3, 5), &vec![(8, 0)]);
    assert_eq!(empty.idle_ns, Some(2));
    assert_eq!(rates(&none, &empty).0, [Some(0.); 3]);
    assert_eq!(rates(&none, &empty).1, [None; 3]);
}

#[test]
fn union_merges_overlapping_and_touching_spans_in_any_order() {
    let mut u = IntervalUnion::new();
    u.insert(10, 20);
    u.insert(30, 40);
    u.insert(20, 25);
    u.insert(5, 5);
    u.insert(9, 3);
    assert_eq!(u.spans(), &vec![(10, 25), (30, 40)]);
    u.insert(24, 31);
    assert_eq!(u.spans(), &vec![(10, 40)]);
    let mut v = IntervalUnion::new();
    for (a, b) in [(24, 31), (20, 25), (30, 40), (10, 20)] {
        v.insert(a, b);
    }
    assert_eq!(v.spans(), u.spans());
    assert_eq!(u.duration(0, 100), 30);
    assert_eq!(u.duration(15, 35), 20);
    assert_eq!(u.duration(35, 15), 0);
    assert_eq!(u.clipped(15, 35), vec![(15, 35)]);
}

#[test]
fn clipping_keeps_only_the_window() {
    let mut u = IntervalUnion::new();
    u.insert(0, 5);
    u.insert(10, 15);
    u.insert(20, 25);
    assert_eq!(u.clipped(3, 22), vec![(3, 5), (10, 15), (20, 22)]);
    assert_eq!(u.clipped(5, 10), Vec::<(u64, u64)>::new());
    assert_eq!(u.duration(3, 22), 9);
    let copy = u.duplicate();
    assert_eq!(copy.spans(), u.spans());
}

#[test]
fn missing_issue_and_limitation_explain_coverage() {
    let mut a = ActivityTimeline::default();
    assert_eq!(
        a.reason(),
        "Full, unfiltered block activity coverage is not proven for this source; detail gaps may be sampling, capture filters or loss"
    );
    a.verified_complete = true;
    assert!(a.exact());
    assert_eq!(a.reason(), "Complete device activity coverage");
    a.observe((8, 0), 100, Some(100), 150);
    a.observe((8, 0), 140, None, 200);
    assert_eq!(a.observed_requests, 2);
    assert_eq!(a.missing_issue, 1);
    assert_eq!(a.range, Some((100, 200)));
    assert!(!a.exact());
    assert_eq!(a.reason(), "1 requests have no measured issue timestamp");
    let b = busy_time(&a, (0, 1000), &vec![(8, 0), (9, 9)]);
    assert_eq!(b.observed_busy_ns, 50);
    assert_eq!(b.busy_ns, None);
    let mut limited = ActivityTimeline { verified_complete: true, ..Default::default() };
    limited.limitation = Some("capture filter active".to_string());
    assert!(!limited.exact());
    assert_eq!(limited.reason(), "capture filter active");
}

#[test]
fn observed_range_widens() {
    let mut a = ActivityTimeline::new();
    a.observe_range(50, 60);
    a.observe_range(40, 55);
    a.observe_range(45, 70);
    assert_eq!(a.range, Some((40, 70)));
}

#[test]
fn transfer_bytes_saturate() {
    let mut t = TransferBytes::default();
    t.observe(IoOperation::Read, 4096);
    t.observe(IoOperation::Write, 512);
    t.observe(IoOperation::Flush, 0);
    t.observe(IoOperation::Discard, 1024);
    assert_eq!((t.read, t.write, t.other), (4096, 512, 1024));
    assert_eq!(t.total(), 5632);
    let big = TransferBytes { read: u64::MAX, write: 1, other: 1 };
    assert_eq!(big.total(), u64::MAX);
    let mut near = TransferBytes { read: u64::MAX - 1, write: 0, other: 0 };
    near.observe(IoOperation::Read, 10);
    assert_eq!(near.read, u64::MAX);
}

#[test]
fn devices_are_kept_in_major_minor_order() {
    let mut a = ActivityTimeline::new();
    for device in [(259u32, 3u32), (8, 16), (259, 1), (8, 0), (8, 16)] {
        a.observe(device, 10, Some(10), 20);
    }
    let order: Vec<(u32, u32)> = a.devices.iter().map(|(d, _)| *d).collect();
    assert_eq!(order, vec![(8, 0), (8, 16), (259, 1), (259, 3)]);
}
