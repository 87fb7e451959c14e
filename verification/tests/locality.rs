use ebpf_studio::locality::{reuse_gaps, LocalityRow};
use ebpf_studio::ranks::{percentile_index, spread_positions};

fn row(sector: u64, write: bool, ts: Option<u64>) -> LocalityRow {
    LocalityRow { sector, bytes: 512, write, issue_ts_ns: ts }
}

#[test]
fn reuse_splits_by_direction_and_start_sector_in_issue_order() {
    let rows = [
        row(10, false, Some(0)),
        row(10, false, Some(2_000_000)),
        row(10, true, Some(1_000_000)),
        row(10, true, Some(4_000_000)),
        row(11, false, None),
    ];
    assert_eq!(reuse_gaps(&rows), vec![None, Some(2_000_000), None, Some(3_000_000), None]);
}

#[test]
fn reuse_takes_the_latest_earlier_request_and_orders_ties_by_record() {
    let rows = [
        row(7, false, Some(50)),
        row(7, false, Some(10)),
        row(7, false, Some(30)),
        row(7, false, Some(30)),
        row(7, false, None),
    ];
    assert_eq!(reuse_gaps(&rows), vec![Some(20), None, Some(20), Some(0), None]);
}

#[test]
fn nearest_rank_percentiles() {
    assert_eq!(percentile_index(0, 50), None);
    assert_eq!(percentile_index(5, 0), Some(0));
    assert_eq!(percentile_index(5, 50), Some(2));
    assert_eq!(percentile_index(5, 95), Some(4));
    assert_eq!(percentile_index(5, 250), Some(4));
    assert_eq!(percentile_index(4, 25), Some(0));
    assert_eq!(percentile_index(4, 26), Some(1));
}

#[test]
fn spread_keeps_both_ends() {
    assert_eq!(spread_positions(4, 10), vec![0, 1, 2, 3]);
    assert_eq!(spread_positions(4, 2), vec![0, 3]);
    assert_eq!(spread_positions(4, 0), vec![0, 3]);
    assert_eq!(spread_positions(1, 5), vec![0]);
    assert_eq!(spread_positions(0, 5), Vec::<usize>::new());
    assert_eq!(spread_positions(10, 4), vec![0, 3, 6, 9]);
}
