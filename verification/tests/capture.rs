use ebpf_studio::adb::PreflightReport;
use ebpf_studio::capture_plan::{capture_source, fallback_allowed, fallback_source, CaptureSource};
use ebpf_studio::capture_stream::{bounded_lines, LineError};
use ebpf_studio::host_bw::IoOperation;
use ebpf_studio::perfetto_projection::operation;

#[test]
fn oversized_line_does_not_turn_its_tail_into_an_event() {
    let input = b"good\n0123456789fake-event\nlast\n";
    let mut lines = bounded_lines(&input[..], 8).into_iter();
    assert_eq!(lines.next().unwrap().unwrap(), "good");
    assert!(lines.next().unwrap().is_err());
    assert_eq!(lines.next().unwrap().unwrap(), "last");
    assert!(lines.next().is_none());
}

#[test]
fn line_endings_limits_and_invalid_text() {
    let lines = bounded_lines(b"a\r\n\nbcd\r\r\nx", 4);
    let shown: Vec<Result<String, String>> = lines.iter().map(|l| match l {
        Ok(s) => Ok(s.clone()),
        Err(e) => Err(e.message()),
    }).collect();
    assert_eq!(shown, vec![Ok("a".to_string()), Ok(String::new()), Err("collector line exceeded bounded buffer; raw tail rejected".to_string()), Ok("x".to_string())]);
    let exact = bounded_lines(b"1234\n12345", 5);
    assert_eq!(exact[0].as_ref().unwrap(), "1234");
    assert!(matches!(exact[1], Ok(ref s) if s == "12345"));
    let bad = bounded_lines(b"ok\n\xff\xfe\n", 16);
    assert!(matches!(&bad[1], Err(LineError::Invalid(m)) if *m == std::str::from_utf8(b"\xff\xfe").unwrap_err().to_string()));
    assert!(bounded_lines(b"", 4).is_empty());
}

fn ready_report() -> PreflightReport {
    let mut r = PreflightReport::new("S1".into());
    r.root = true;
    r.abi = "arm64-v8a".into();
    r.tracefs = true;
    r.block_issue = true;
    r.block_complete = true;
    r.boot_id = "boot-a".into();
    r
}

#[test]
fn capture_source_prefers_ebpf_then_perfetto_then_counters() {
    let mut r = ready_report();
    assert_eq!(capture_source(&r), CaptureSource::Ebpf);
    r.root = false;
    assert_eq!(capture_source(&r), CaptureSource::DeviceCounters);
    r.perfetto = true;
    assert_eq!(capture_source(&r), CaptureSource::Perfetto);
}

#[test]
fn fallback_only_before_measurement_and_never_across_reboot() {
    assert!(fallback_allowed(false, false, false, true));
    assert!(!fallback_allowed(true, false, false, true));
    assert!(!fallback_allowed(false, true, false, true));
    assert!(!fallback_allowed(false, false, true, true));
    assert!(!fallback_allowed(false, false, false, false));
    let mut r = ready_report();
    r.perfetto = true;
    assert_eq!(fallback_source("boot-a", &mut r, "attach failed".into()).unwrap(), CaptureSource::Perfetto);
    assert_eq!(r.ebpf_start_error.as_deref(), Some("attach failed"));
    assert_eq!(r.diagnostics.len(), 1);
    let mut other = ready_report();
    let err = fallback_source("boot-b", &mut other, "x".into()).unwrap_err();
    assert_eq!(err, "Device boot changed during preparation; partial data preserved. Start a new session after reconnecting");
    assert!(other.ebpf_start_error.is_none());
    assert!(fallback_source("", &mut ready_report(), "x".into()).is_err());
}

#[test]
fn rwbs_names_the_operation() {
    assert_eq!(operation("RS"), IoOperation::Read);
    assert_eq!(operation("WFS"), IoOperation::Write);
    assert_eq!(operation("D"), IoOperation::Discard);
    assert_eq!(operation("FF"), IoOperation::Flush);
    assert_eq!(operation("N"), IoOperation::Other);
    assert_eq!(operation(""), IoOperation::Other);
}
