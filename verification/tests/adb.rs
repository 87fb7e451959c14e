use ebpf_studio::adb::{
    devices_from_output, event_lines, is_root_uid, is_valid_serial, output_text, parse_devices, perfetto_support,
    require_success, shell_quote, trace_root_for, AdbClient, AdbCommandBuilder, AdbError, DeviceState,
    PreflightReport, RootMethod, RootProbe,
};

#[test]
fn root_uid_is_trimmed_zero() {
    assert!(is_root_uid("0"));
    assert!(is_root_uid(" 0\r\n"));
    assert!(!is_root_uid("00"));
    assert!(!is_root_uid("2000"));
    assert!(!is_root_uid(""));
}

#[test]
fn device_listing_after_header_with_metadata() {
    let out = "* daemon started *\nList of devices attached\nABC123 device usb:1-1 product:p1 model:Pixel_7 device:panther transport_id:3\n\
               -bad device\nemulator-5554\toffline\nXYZ unauthorized model:a model:b\nlone\n\nQ:1.2_3 recovery\n";
    let devices = parse_devices(out);
    assert_eq!(devices.len(), 4);
    assert_eq!(devices[0].serial, "ABC123");
    assert_eq!(devices[0].state, DeviceState::Device);
    assert_eq!(devices[0].model.as_deref(), Some("Pixel_7"));
    assert_eq!(devices[0].product.as_deref(), Some("p1"));
    assert_eq!(devices[0].device.as_deref(), Some("panther"));
    assert_eq!(devices[1].serial, "emulator-5554");
    assert_eq!(devices[1].state, DeviceState::Offline);
    assert_eq!(devices[1].model, None);
    assert_eq!(devices[2].state, DeviceState::Unauthorized);
    assert_eq!(devices[2].model.as_deref(), Some("b"));
    assert_eq!(devices[3].serial, "Q:1.2_3");
    assert_eq!(devices[3].state, DeviceState::Other);
    assert!(parse_devices("ABC123 device\n").is_empty());
}

#[test]
fn serials_are_refused_when_unsafe() {
    assert!(is_valid_serial("emulator-5554"));
    assert!(is_valid_serial("192.168.1.2:5555"));
    assert!(!is_valid_serial(""));
    assert!(!is_valid_serial("-s"));
    assert!(!is_valid_serial("a b"));
    assert!(!is_valid_serial("dev;rm"));
    assert!(!is_valid_serial("é"));
    assert!(matches!(AdbCommandBuilder::new("-x".into()), Err(AdbError::InvalidSerial)));
}

#[test]
fn commands_bind_the_serial() {
    let b = AdbCommandBuilder::with_adb("/opt/adb".into(), "SER1".into()).unwrap();
    let shell = b.shell(&["getprop", "ro.product.model"]);
    assert_eq!(shell.program, "/opt/adb");
    assert_eq!(shell.args, vec!["-s", "SER1", "shell", "getprop", "ro.product.model"]);
    let host = b.host(&["push", "a", "b"]);
    assert_eq!(host.args, vec!["-s", "SER1", "push", "a", "b"]);
    assert_eq!(b.serial(), "SER1");
    let default = AdbCommandBuilder::new("SER1".into()).unwrap();
    assert_eq!(default.shell(&[]).program, "adb");
}

#[test]
fn quoting_keeps_each_argument_one_word() {
    assert_eq!(shell_quote("plain"), "'plain'");
    assert_eq!(shell_quote("it's"), "'it'\"'\"'s'");
    assert_eq!(shell_quote(""), "''");
    let b = AdbCommandBuilder::new("SER1".into()).unwrap();
    let shell = b.root_shell(RootMethod::Shell, &["id", "-u"]);
    assert_eq!(shell.args, vec!["-s", "SER1", "shell", "'id' '-u'"]);
    let su = b.root_shell(RootMethod::SuCommand, &["id", "-u"]);
    assert_eq!(su.args[3], "su -c ''\"'\"'id'\"'\"' '\"'\"'-u'\"'\"''");
    let su0 = b.root_shell(RootMethod::SuUid, &["cat", "/proc/x y"]);
    assert_eq!(su0.args[3], "su 0 sh -c ''\"'\"'cat'\"'\"' '\"'\"'/proc/x y'\"'\"''");
}

#[test]
fn root_detection_tries_adbd_root_only_after_all_methods() {
    let b = AdbCommandBuilder::new("SER1".into()).unwrap();
    let mut p = RootProbe::start();
    assert_eq!(p.command(&b).unwrap().args[3], "'id' '-u'");
    p = p.advance(Some("2000"));
    assert_eq!(p, RootProbe::Probe(RootMethod::SuCommand));
    p = p.advance(None);
    assert_eq!(p, RootProbe::Probe(RootMethod::SuUid));
    p = p.advance(Some("uid=2000"));
    assert_eq!(p, RootProbe::EnableAdbdRoot);
    assert_eq!(p.command(&b).unwrap().args, vec!["-s", "SER1", "root"]);
    p = p.advance(None);
    assert_eq!(p.command(&b).unwrap().args, vec!["-s", "SER1", "wait-for-device"]);
    p = p.advance(None);
    assert_eq!(p, RootProbe::ProbeAfterRestart);
    p = p.advance(Some("2000"));
    assert_eq!(p, RootProbe::Failed);
    assert!(p.command(&b).is_none());
    let err = p.outcome().unwrap().unwrap_err();
    assert_eq!(
        err.message(),
        "ADB command failed (root detection): Approve USB debugging and the su/root prompt on the phone, then retry Start. Shell, su -c, su 0 and adb root did not provide UID 0."
    );
    let found = RootProbe::start().advance(None).advance(Some("0\n"));
    assert_eq!(found, RootProbe::Found(RootMethod::SuCommand));
    assert!(matches!(found.outcome(), Some(Ok(RootMethod::SuCommand))));
}

#[test]
fn failed_commands_report_bounded_stderr() {
    assert!(require_success("push", true, b"ignored").is_ok());
    let err = require_success("push", false, b"  no space left\n").unwrap_err();
    assert_eq!(err.message(), "ADB command failed (push): no space left");
    let long = vec![b'x'; 5000];
    match require_success("pull", false, &long).unwrap_err() {
        AdbError::Command { operation, message } => {
            assert_eq!(operation, "pull");
            assert_eq!(message.len(), 4096);
        }
        other => panic!("unexpected {other:?}"),
    }
    assert_eq!(output_text(b"  abc\xff \n"), "abc\u{fffd}");
    let listed = devices_from_output(true, b"List of devices attached\nS1 device\n", b"").unwrap();
    assert_eq!(listed[0].serial, "S1");
    assert!(devices_from_output(false, b"", b"boom").is_err());
}

#[test]
fn errors_have_messages() {
    assert_eq!(AdbError::InvalidSerial.message(), "invalid ADB serial");
    assert_eq!(AdbError::Io("broken pipe".into()).message(), "ADB I/O failed: broken pipe");
    assert_eq!(AdbError::MissingArtifact("/x".into()).message(), "local artifact does not exist: /x");
}

#[test]
fn preflight_readiness_needs_root_arm64_and_tracepoints() {
    let mut r = PreflightReport::new("S1".into());
    r.root = true;
    r.abi = "arm64-v8a".into();
    r.tracefs = true;
    r.block_issue = true;
    r.block_complete = true;
    assert!(r.full_ebpf_ready());
    r.note_readiness();
    assert!(r.diagnostics.is_empty());
    r.ebpf_start_error = Some("verifier rejected".into());
    assert!(!r.full_ebpf_ready());
    r.note_readiness();
    assert_eq!(r.diagnostics.len(), 1);
    let mut x86 = PreflightReport { root: true, tracefs: true, block_issue: true, block_complete: true, ..Default::default() };
    x86.abi = "x86_64".into();
    assert!(!x86.full_ebpf_ready());
}

#[test]
fn preflight_text_helpers() {
    assert_eq!(trace_root_for(true), "/sys/kernel/tracing");
    assert_eq!(trace_root_for(false), "/sys/kernel/debug/tracing");
    let events = "/t/events/ufs\n/t/events/UFSHCD\n/t/events/scsi\n/t/events/ext4\n/t/events/f2fs\n";
    assert_eq!(event_lines(events, &["ufs"], 128), vec!["/t/events/ufs", "/t/events/UFSHCD"]);
    assert_eq!(event_lines(events, &["ufs"], 1), vec!["/t/events/ufs"]);
    assert_eq!(event_lines(events, &["f2fs", "ext4"], 256), vec!["/t/events/ext4", "/t/events/f2fs"]);
    let (ftrace, version) = perfetto_support("Perfetto v44.0 (abc)\nData sources:\n  linux.ftrace\n");
    assert!(ftrace);
    assert_eq!(version, "Perfetto v44.0 (abc)");
    let (ftrace, version) = perfetto_support("service only");
    assert!(!ftrace);
    assert_eq!(version, "Perfetto service available");
}

#[test]
fn client_builds_device_commands() {
    let c = AdbClient::default();
    assert_eq!(c.adb_path(), "adb");
    let d = c.devices_command();
    assert_eq!(d.args, vec!["devices", "-l"]);
    assert!(c.builder("bad serial").is_err());
    assert_eq!(c.builder("S1").unwrap().serial(), "S1");
}
