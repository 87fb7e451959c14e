use ebpf_studio::correlation::analyze;
use ebpf_studio::perfetto::{decode, BlockKind};
use ebpf_studio::perfetto_projection::device_numbers;
use ebpf_studio::protobuf::{fields, varint, DecodeError};

fn put_varint(out: &mut Vec<u8>, mut v: u64) {
    loop {
        let b = (v & 0x7f) as u8;
        v >>= 7;
        if v == 0 {
            out.push(b);
            return;
        }
        out.push(b | 0x80);
    }
}

fn num(out: &mut Vec<u8>, id: u64, v: u64) {
    put_varint(out, id << 3);
    put_varint(out, v);
}

fn bytes(out: &mut Vec<u8>, id: u64, b: &[u8]) {
    put_varint(out, (id << 3) | 2);
    put_varint(out, b.len() as u64);
    out.extend_from_slice(b);
}

/// A block tracepoint payload: device, sector, sectors, bytes, rwbs, comm.
fn block(dev: u64, sector: u64, sectors: u64, nbytes: Option<u64>, rwbs: &str, comm: Option<&str>) -> Vec<u8> {
    let mut b = Vec::new();
    num(&mut b, 1, dev);
    num(&mut b, 2, sector);
    num(&mut b, 3, sectors);
    if let Some(n) = nbytes {
        num(&mut b, 4, n);
    }
    bytes(&mut b, 5, rwbs.as_bytes());
    if let Some(c) = comm {
        bytes(&mut b, 6, c.as_bytes());
    }
    b
}

fn event(ts: u64, pid: u64, kind_field: u64, payload: &[u8]) -> Vec<u8> {
    let mut e = Vec::new();
    num(&mut e, 1, ts);
    num(&mut e, 2, pid);
    bytes(&mut e, kind_field, payload);
    e
}

fn trace(events: &[Vec<u8>]) -> Vec<u8> {
    let mut bundle = Vec::new();
    num(&mut bundle, 1, 0);
    for e in events {
        bytes(&mut bundle, 2, e);
    }
    let mut packet = Vec::new();
    bytes(&mut packet, 1, &bundle);
    let mut out = Vec::new();
    bytes(&mut out, 1, &packet);
    out
}

#[test]
fn varints_and_fields_follow_the_wire_format() {
    assert_eq!(varint(&[0x96, 0x01], 0), Ok((150, 2)));
    assert_eq!(varint(&[0x80], 0), Err(DecodeError::Eof));
    assert_eq!(DecodeError::MissingField(3).message(), "missing block field 3");
    let mut m = Vec::new();
    num(&mut m, 3, 7);
    bytes(&mut m, 5, b"abc");
    let f = fields(&m).unwrap();
    assert_eq!(f.len(), 2);
    assert_eq!(f[0].id, 3);
    assert_eq!(f[1].id, 5);
}

#[test]
fn unique_same_range_issue_gives_probable_device_latency() {
    let dev = 0x0800;
    let data = trace(&[
        event(1_000, 42, 45, &block(dev, 8, 8, Some(4096), "R", Some("reader"))),
        event(1_500, 0, 125, &block(dev, 8, 8, None, "R", None)),
    ]);
    let t = decode(&data);
    assert_eq!(t.quality.packets, 1);
    assert!(!t.quality.truncated);
    assert_eq!(t.events.len(), 2);
    assert_eq!(t.events[0].kind, BlockKind::Issue);
    assert_eq!(t.events[0].rwbs, "R");
    assert_eq!(t.events[0].comm.as_deref(), Some("reader"));
    assert_eq!(t.events[1].bytes, 8 * 512);
    assert_eq!(t.events[1].operation(), 'R');
    let a = analyze(&t);
    assert_eq!(a.completions.len(), 1);
    let o = &a.completions[0];
    assert_eq!(o.issue_candidates, vec![1]);
    assert_eq!(o.device_latency_ns, Some(500));
    assert_eq!(o.issue_timestamp_ns, Some(1_000));
    assert_eq!(o.issuer_tid, Some(42));
    assert_eq!(o.issuer_comm.as_deref(), Some("reader"));
    assert_eq!(o.timing_confidence, "Probable");
    assert!(a.unmatched_issue_records.is_empty());
    assert!(a.orphan_insert_records.is_empty());
}

#[test]
fn overlapping_issues_leave_completion_unresolved() {
    let dev = 0x0800;
    let data = trace(&[
        event(1_000, 1, 45, &block(dev, 8, 8, Some(4096), "W", None)),
        event(1_100, 2, 45, &block(dev, 12, 8, Some(4096), "W", None)),
        event(1_500, 0, 125, &block(dev, 8, 8, None, "W", None)),
    ]);
    let a = analyze(&decode(&data));
    assert_eq!(a.completions.len(), 1);
    let o = &a.completions[0];
    assert_eq!(o.issue_candidates, vec![1, 2]);
    assert_eq!(o.device_latency_ns, None);
    assert_eq!(o.timing_confidence, "Unresolved");
    assert_eq!(a.unmatched_issue_records, vec![1, 2]);
}

#[test]
fn completion_without_issue_and_unpaired_requeue_are_reported() {
    let dev = 0x0801;
    let data = trace(&[
        event(2_000, 0, 129, &block(dev, 100, 8, None, "R", None)),
        event(2_500, 0, 125, &block(dev, 100, 8, None, "R", None)),
        event(2_600, 7, 126, &block(dev, 300, 8, Some(4096), "R", Some("ins"))),
    ]);
    let a = analyze(&decode(&data));
    assert_eq!(a.completions[0].issue_candidates, Vec::<u64>::new());
    assert_eq!(a.completions[0].device_latency_ns, None);
    assert_eq!(a.unpaired_requeue_records, vec![1]);
    assert_eq!(a.orphan_insert_records, vec![3]);
}

#[test]
fn damaged_tail_keeps_the_intact_prefix() {
    let dev = 0x0800;
    let mut data = trace(&[event(1_000, 42, 45, &block(dev, 8, 8, Some(4096), "R", None))]);
    data.extend_from_slice(&[0x0a, 0x05, 0x01]);
    let t = decode(&data);
    assert_eq!(t.events.len(), 1);
    assert!(t.quality.truncated);
    assert_eq!(t.quality.diagnostics.len(), 1);
    let bad_root = decode(&[0x12, 0x00]);
    assert!(bad_root.quality.truncated);
    assert!(bad_root.events.is_empty());
}

#[test]
fn events_are_ordered_by_time_then_record() {
    let dev = 0x0800;
    let data = trace(&[
        event(3_000, 1, 45, &block(dev, 8, 8, Some(4096), "R", None)),
        event(1_000, 1, 45, &block(dev, 80, 8, Some(4096), "R", None)),
        event(3_000, 1, 45, &block(dev, 800, 8, Some(4096), "R", None)),
    ]);
    let t = decode(&data);
    let order: Vec<(u64, u64)> = t.events.iter().map(|e| (e.timestamp_ns, e.record_id)).collect();
    assert_eq!(order, vec![(1_000, 2), (3_000, 1), (3_000, 3)]);
}

#[test]
fn device_numbers_split_userspace_dev_t() {
    assert_eq!(device_numbers(0x0800), (8, 0));
    assert_eq!(device_numbers(0x0811), (8, 17));
    assert_eq!(device_numbers((259u64 << 8) | 5), (259, 5));
    let dev_t = |major: u64, minor: u64| (minor & 0xff) | ((major & 0xfff) << 8) | ((minor & !0xff) << 12) | ((major & !0xfff) << 32);
    assert_eq!(device_numbers(dev_t(0x12345, 0x6789a)), (0x12345, 0x6789a));
}

fn clocked_packet(clock: u64) -> Vec<u8> {
    let mut bundle = Vec::new();
    num(&mut bundle, 1, 0);
    num(&mut bundle, 5, clock);
    let mut packet = Vec::new();
    bytes(&mut packet, 1, &bundle);
    let mut out = Vec::new();
    bytes(&mut out, 1, &packet);
    out
}

#[test]
fn unsupported_clocks_are_kept_once_in_ascending_order() {
    let mut data = clocked_packet(6);
    data.extend(clocked_packet(3));
    data.extend(clocked_packet(6));
    data.extend(clocked_packet(4));
    let t = decode(&data);
    assert_eq!(t.quality.unsupported_clocks, vec![3, 4, 6]);
    assert!(!t.quality.truncated);
    assert_eq!(t.quality.packets, 4);
}

#[test]
fn whole_packets_are_not_truncated_and_a_damaged_tail_is() {
    let dev = 0x0800;
    let whole = trace(&[event(1_000, 42, 45, &block(dev, 8, 8, Some(4096), "R", None))]);
    let d = decode(&whole);
    assert!(!d.quality.truncated);
    let mut damaged = whole.clone();
    damaged.extend_from_slice(&[0x0a, 0x80]);
    let d2 = decode(&damaged);
    assert!(d2.quality.truncated);
    assert_eq!(d2.events.len(), d.events.len());
    assert_eq!((d2.events[0].record_id, d2.events[0].timestamp_ns, d2.events[0].sector), (1, 1_000, 8));
    assert_eq!(d2.quality.packets, d.quality.packets);
}

#[test]
fn event_names_and_loss_counters_are_kept_in_key_order() {
    let mut stats = Vec::new();
    num(&mut stats, 1, 1);
    bytes(&mut stats, 6, b"zeta");
    bytes(&mut stats, 6, b"alpha");
    bytes(&mut stats, 6, b"zeta");
    bytes(&mut stats, 7, b"omega");
    bytes(&mut stats, 7, b"beta");
    let mut ftrace = Vec::new();
    bytes(&mut ftrace, 34, &stats);
    let mut buffer = Vec::new();
    num(&mut buffer, 13, 7);
    let mut service = Vec::new();
    num(&mut service, 14, 2);
    num(&mut service, 8, 5);
    bytes(&mut service, 1, &buffer);
    let mut svc = Vec::new();
    bytes(&mut svc, 35, &service);
    let mut data = Vec::new();
    bytes(&mut data, 1, &ftrace);
    bytes(&mut data, 1, &svc);
    let t = decode(&data);
    assert!(!t.quality.truncated);
    assert_eq!(t.quality.unknown_events, vec!["alpha", "zeta"]);
    assert_eq!(t.quality.failed_events, vec!["beta", "omega"]);
    let counters: Vec<(&str, u64)> = t.quality.service_loss_counters.iter().map(|(k, v)| (k.as_str(), *v)).collect();
    assert_eq!(counters, vec![("buffer_0_bytes_overwritten", 7), ("chunks_discarded", 5), ("flushes_failed", 2)]);
}

#[test]
fn a_damaged_tail_keeps_every_sorted_event_of_the_whole_packets() {
    let dev = 0x0800;
    let mut whole = trace(&[
        event(2_000, 42, 45, &block(dev, 8, 8, Some(4096), "R", None)),
        event(1_000, 42, 45, &block(dev, 64, 8, Some(4096), "W", None)),
    ]);
    whole.extend(trace(&[event(1_500, 7, 45, &block(dev, 128, 8, Some(4096), "R", None))]));
    let d = decode(&whole);
    assert!(!d.quality.truncated);
    let mut damaged = whole.clone();
    damaged.extend_from_slice(&[0x0a, 0x05, 0x01]);
    let d2 = decode(&damaged);
    assert!(d2.quality.truncated);
    let key = |e: &ebpf_studio::perfetto::BlockEvent| (e.record_id, e.timestamp_ns, e.sector);
    let order: Vec<_> = d.events.iter().map(key).collect();
    assert_eq!(order, vec![(2, 1_000, 64), (3, 1_500, 128), (1, 2_000, 8)]);
    for e in &d.events {
        assert!(d2.events.iter().any(|f| key(f) == key(e)));
    }
    assert!(d2.quality.packets >= d.quality.packets);
}

#[test]
fn each_issue_is_consumed_once_or_reported_unmatched() {
    let dev = 0x0800;
    let data = trace(&[
        event(1_000, 1, 45, &block(dev, 8, 8, Some(4096), "R", None)),
        event(1_100, 2, 45, &block(dev, 64, 8, Some(4096), "R", None)),
        event(1_200, 0, 125, &block(dev, 8, 8, None, "R", None)),
        event(1_300, 0, 125, &block(dev, 8, 8, None, "R", None)),
        event(1_400, 3, 45, &block(dev, 200, 8, Some(4096), "W", None)),
        event(1_500, 0, 125, &block(dev, 200, 4, None, "W", None)),
    ]);
    let a = analyze(&decode(&data));
    assert_eq!(a.completions.len(), 3);
    assert_eq!(a.completions[0].issue_candidates, vec![1]);
    assert_eq!(a.completions[1].issue_candidates, Vec::<u64>::new());
    assert_eq!(a.completions[2].issue_candidates, vec![5]);
    assert_eq!(a.unmatched_issue_records, vec![2, 5]);
}
