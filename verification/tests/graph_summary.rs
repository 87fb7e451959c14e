use ebpf_studio::graph_summary::{AddressAccumulator, AddressCount};
use ebpf_studio::host_bw::IoOperation;

#[test]
fn address_overlaps_count_read_write_independently_and_split_devices() {
    let mut a = AddressAccumulator::default();
    for (sector, sectors, op, minor) in [
        (0u64, 8u32, IoOperation::Read, 0u32),
        (4, 8, IoOperation::Read, 0),
        (6, 2, IoOperation::Write, 0),
        (0, 8, IoOperation::Write, 1),
    ] {
        a.observe((8, minor), op, sector, sectors);
    }
    let rows = a.finish();
    assert_eq!(
        rows.iter()
            .map(|r| (r.device.1, r.start_sector, r.end_sector, r.reads, r.writes))
            .collect::<Vec<_>>(),
        [
            (0, 0, 4, 1, 0),
            (0, 4, 6, 2, 0),
            (0, 6, 8, 2, 1),
            (0, 8, 12, 1, 0),
            (1, 0, 8, 0, 1)
        ]
    );
    assert_eq!(
        rows.iter()
            .filter(|r| r.repeated())
            .map(|r| r.end_sector - r.start_sector)
            .sum::<u64>(),
        4
    );
}

#[test]
fn address_rows_merge_adjacent_runs_with_equal_counts() {
    let mut a = AddressAccumulator::new();
    a.observe((8, 0), IoOperation::Read, 0, 4);
    a.observe((8, 0), IoOperation::Read, 4, 4);
    a.observe((8, 0), IoOperation::Write, 20, 2);
    let rows = a.finish();
    assert_eq!(
        rows,
        vec![
            AddressCount { device: (8, 0), start_sector: 0, end_sector: 8, reads: 1, writes: 0 },
            AddressCount { device: (8, 0), start_sector: 20, end_sector: 22, reads: 0, writes: 1 },
        ]
    );
}

#[test]
fn address_rows_ignore_other_operations_and_count_empty_extents() {
    let mut a = AddressAccumulator::new();
    a.observe((8, 0), IoOperation::Discard, 0, 8);
    a.observe((8, 0), IoOperation::Read, 5, 0);
    a.observe((8, 0), IoOperation::Write, u64::MAX, 4);
    assert_eq!(a.unknown_or_empty(), 2);
    assert!(a.finish().is_empty());
}

#[test]
fn address_rows_order_devices_by_major_then_minor() {
    let mut a = AddressAccumulator::new();
    a.observe((259, 1), IoOperation::Read, 0, 1);
    a.observe((8, 16), IoOperation::Read, 0, 1);
    a.observe((8, 2), IoOperation::Write, 0, 1);
    let devices: Vec<(u32, u32)> = a.finish().iter().map(|r| r.device).collect();
    assert_eq!(devices, vec![(8, 2), (8, 16), (259, 1)]);
}

#[test]
fn repeated_needs_more_than_one_request() {
    let one = AddressCount { device: (8, 0), start_sector: 0, end_sector: 1, reads: 1, writes: 0 };
    let two = AddressCount { reads: 1, writes: 1, ..one };
    let huge = AddressCount { reads: u64::MAX, writes: u64::MAX, ..one };
    assert!(!one.repeated());
    assert!(two.repeated());
    assert!(huge.repeated());
}
