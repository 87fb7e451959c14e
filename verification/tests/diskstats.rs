use ebpf_studio::diskstats::{disk_delta, diskstat, parse_diskstats, parse_u64_chars, DiskRate, DiskStatsView, SessionRecord};

#[test]
fn diskstats_uses_sector_counters_and_rejects_resets_instead_of_false_zero() {
    let parsed = parse_diskstats("8 0 sda 10 0 80 1 20 0 160 2 0 3 4\nmalformed");
    assert_eq!(diskstat(&parsed, "8:0 sda"), Some([10, 80, 20, 160]));
    assert_eq!(disk_delta(&[10, 80, 20, 160], &[12, 96, 21, 168]), Some([2, 16, 1, 8]));
    assert_eq!(disk_delta(&[10, 80, 20, 160], &[1, 8, 1, 8]), None);
}

#[test]
fn later_rows_replace_earlier_rows_of_the_same_device() {
    let parsed = parse_diskstats(
        "8 0 sda 1 0 2 0 3 0 4 0 0 0 0\n  8 16 sdb 5 0 6 0 7 0 8 0 0 0 extra\r\n8 0 sda 9 0 10 0 11 0 12 0 0 0 0\n",
    );
    assert_eq!(parsed.len(), 2);
    assert_eq!(parsed[0].0, "8:0 sda");
    assert_eq!(parsed[0].1, [9, 10, 11, 12]);
    assert_eq!(diskstat(&parsed, "8:16 sdb"), Some([5, 6, 7, 8]));
    assert_eq!(diskstat(&parsed, "8:32 sdc"), None);
}

#[test]
fn unreadable_counters_skip_the_row() {
    let parsed = parse_diskstats("8 0 sda x 0 2 0 3 0 4 0 0 0 0\n8 1 sda1 -1 0 2 0 3 0 4 0 0 0 0\n8 2 sda2 1 0 2 0 3 0 4 0 0 0");
    assert!(parsed.is_empty());
}

#[test]
fn unsigned_parsing_follows_std() {
    let p = |s: &str| parse_u64_chars(&s.chars().collect::<Vec<_>>());
    assert_eq!(p("0"), Some(0));
    assert_eq!(p("+7"), Some(7));
    assert_eq!(p("+"), None);
    assert_eq!(p(""), None);
    assert_eq!(p("-1"), None);
    assert_eq!(p("18446744073709551615"), Some(u64::MAX));
    assert_eq!(p("18446744073709551616"), None);
    assert_eq!(p("12a"), None);
    for s in ["0", "+7", "+", "", "-1", "18446744073709551615", "18446744073709551616", "12a", "007"] {
        assert_eq!(p(s), s.parse::<u64>().ok(), "{s}");
    }
}

#[test]
fn delta_of_a_single_decreased_counter_is_a_reset() {
    assert_eq!(disk_delta(&[1, 1, 1, 1], &[1, 1, 1, 0]), None);
    assert_eq!(disk_delta(&[1, 1, 1, 1], &[1, 1, 1, 1]), Some([0, 0, 0, 0]));
}

fn snapshot(boot: &str, second: u64, counters: u64) -> SessionRecord {
    SessionRecord::DiskStats {
        boot_id: boot.into(),
        elapsed_ms: second * 1000,
        raw: format!("253 0 dm-0 {counters} 0 {counters} 0 {counters} 0 {counters} 0 0 0 0\n"),
    }
}

fn series<'a>(view: &'a DiskStatsView, key: &str) -> &'a Vec<DiskRate> {
    &view.samples.iter().find(|(k, _)| k == key).unwrap().1
}

fn rate_mib_s(r: &DiskRate) -> f64 {
    r.sectors as f64 * 512.0 / 1_048_576.0 / (r.interval_ms as f64 / 1000.0)
}

#[test]
fn counter_projection_preserves_deltas_without_double_counting() {
    let mut view = DiskStatsView::default();
    let mut records = vec![snapshot("a", 0, 10), snapshot("a", 1, 20)];
    view.sync(&records);
    assert_eq!(diskstat(&view.totals, "253:0 dm-0"), Some([10; 4]));
    view.sync(&records);
    assert_eq!(series(&view, "253:0 dm-0").len(), 1);
    records.push(snapshot("a", 2, 25));
    view.sync(&records);
    assert_eq!(diskstat(&view.totals, "253:0 dm-0"), Some([15; 4]));
    assert_eq!(rate_mib_s(&series(&view, "253:0 dm-0")[1]), 10.0 * 512.0 / 1_048_576.0);
    // Reboot with larger counters must not create an artificial spike.
    records.push(snapshot("b", 3, 1000));
    records.push(snapshot("b", 4, 1002));
    records.push(snapshot("b", 5, 1));
    view.sync(&records);
    assert_eq!(diskstat(&view.totals, "253:0 dm-0"), Some([17; 4]));
    assert_eq!(view.reset_intervals, 2);
    let mut missing = snapshot("b", 6, 2);
    if let SessionRecord::DiskStats { raw, .. } = &mut missing {
        raw.clear();
    }
    records.extend([missing, snapshot("b", 7, 100), snapshot("b", 8, 101)]);
    view.sync(&records);
    assert_eq!(diskstat(&view.totals, "253:0 dm-0"), Some([18; 4]));
}

#[test]
fn shorter_record_list_restarts_the_projection() {
    let mut view = DiskStatsView::new();
    view.sync(&[snapshot("a", 0, 10), snapshot("a", 1, 20), SessionRecord::Other]);
    assert_eq!(view.processed, 3);
    view.sync(&[snapshot("b", 0, 100), snapshot("b", 1, 103)]);
    assert_eq!(view.processed, 2);
    assert_eq!(diskstat(&view.totals, "253:0 dm-0"), Some([3; 4]));
    assert_eq!(view.reset_intervals, 0);
}

#[test]
fn clock_that_does_not_advance_is_a_reset_interval() {
    let mut view = DiskStatsView::new();
    view.sync(&[snapshot("a", 5, 10), snapshot("a", 5, 20), snapshot("a", 4, 30)]);
    assert_eq!(diskstat(&view.totals, "253:0 dm-0"), None);
    assert!(view.samples.is_empty());
    assert_eq!(view.reset_intervals, 2);
}

#[test]
fn samples_record_interval_and_sector_sum() {
    let mut view = DiskStatsView::new();
    let first = SessionRecord::DiskStats {
        boot_id: "a".into(),
        elapsed_ms: 1000,
        raw: "8 0 sda 1 0 10 0 2 0 20 0 0 0 0\n".into(),
    };
    let second = SessionRecord::DiskStats {
        boot_id: "a".into(),
        elapsed_ms: 3500,
        raw: "8 0 sda 4 0 15 0 3 0 26 0 0 0 0\n".into(),
    };
    view.sync(&[first, second]);
    assert_eq!(
        series(&view, "8:0 sda"),
        &vec![DiskRate { elapsed_ms: 3500, interval_ms: 2500, sectors: 11 }]
    );
    assert_eq!(diskstat(&view.totals, "8:0 sda"), Some([3, 5, 1, 6]));
}

#[test]
fn rows_come_out_in_ascending_key_order() {
    let parsed = parse_diskstats(
        "8 16 sdb 5 0 6 0 7 0 8 0 0 0 0\n253 0 dm-0 1 0 1 0 1 0 1 0 0 0 0\n8 0 sda 1 0 2 0 3 0 4 0 0 0 0\n8 16 sdb 9 0 9 0 9 0 9 0 0 0 0\n",
    );
    let keys: Vec<&str> = parsed.iter().map(|(k, _)| k.as_str()).collect();
    assert_eq!(keys, vec!["253:0 dm-0", "8:0 sda", "8:16 sdb"]);
    assert_eq!(diskstat(&parsed, "8:16 sdb"), Some([9, 9, 9, 9]));
}

#[test]
fn totals_and_samples_stay_in_device_key_order() {
    let mut view = DiskStatsView::new();
    let first = SessionRecord::DiskStats {
        boot_id: "a".into(),
        elapsed_ms: 1000,
        raw: "8 16 sdb 1 0 1 0 1 0 1 0 0 0 0\n8 0 sda 1 0 1 0 1 0 1 0 0 0 0\n".into(),
    };
    let second = SessionRecord::DiskStats {
        boot_id: "a".into(),
        elapsed_ms: 2000,
        raw: "8 16 sdb 2 0 3 0 2 0 3 0 0 0 0\n8 0 sda 3 0 5 0 3 0 5 0 0 0 0\n".into(),
    };
    view.sync(&[first, second]);
    let totals: Vec<&str> = view.totals.iter().map(|(k, _)| k.as_str()).collect();
    let samples: Vec<&str> = view.samples.iter().map(|(k, _)| k.as_str()).collect();
    assert_eq!(totals, vec!["8:0 sda", "8:16 sdb"]);
    assert_eq!(samples, vec!["8:0 sda", "8:16 sdb"]);
    assert_eq!(diskstat(&view.totals, "8:0 sda"), Some([2, 4, 2, 4]));
    assert_eq!(diskstat(&view.totals, "8:16 sdb"), Some([1, 2, 1, 2]));
}
