use ebpf_studio::adb::{AdbCommandBuilder, AdbError, RootMethod};
use ebpf_studio::preflight::{deploy_commands, Preflight, PreflightStep};

/// Answers every probe the way a rooted arm64 phone with tracefs would.
fn run_rooted(mut p: Preflight, sys_enter: bool) -> (Preflight, Vec<Vec<String>>) {
    let mut asked = Vec::new();
    while let Some((method, args)) = p.command() {
        asked.push(args.clone());
        match p.step {
            PreflightStep::Events => p.on_events(Some("/sys/kernel/tracing/events/ufs\n/sys/kernel/tracing/events/f2fs\n/sys/kernel/tracing/events/ext4\n".into())),
            PreflightStep::Query => {
                assert_eq!(method, RootMethod::Shell);
                p.on_query(Some("Perfetto v42.0\nlinux.ftrace\n".into()))
            }
            PreflightStep::SysEnter => p.on_test(sys_enter),
            PreflightStep::TraceDir
            | PreflightStep::Btf
            | PreflightStep::Tracefs
            | PreflightStep::BlockIssue
            | PreflightStep::BlockComplete
            | PreflightStep::BlockInsert
            | PreflightStep::SysExit => p.on_test(true),
            PreflightStep::Abi => p.on_text("arm64-v8a".into()),
            PreflightStep::BootId => p.on_text("boot-1".into()),
            _ => p.on_text("x".into()),
        }
    }
    (p, asked)
}

#[test]
fn rooted_preflight_probes_in_order_and_is_ready() {
    let (p, asked) = run_rooted(Preflight::start("S1".into(), Ok(RootMethod::SuCommand)), true);
    assert_eq!(p.step, PreflightStep::Done);
    let r = &p.report;
    assert!(r.root && r.tracefs && r.block_issue && r.raw_syscalls && r.perfetto);
    assert_eq!(r.root_method, RootMethod::SuCommand);
    assert_eq!(r.trace_root, "/sys/kernel/tracing");
    assert_eq!(r.boot_id, "boot-1");
    assert_eq!(r.perfetto_version, "Perfetto v42.0");
    assert_eq!(r.ufs_events, vec!["/sys/kernel/tracing/events/ufs"]);
    assert_eq!(r.fs_events.len(), 2);
    assert!(r.diagnostics.is_empty());
    assert_eq!(asked.len(), 19);
    assert_eq!(asked[0], vec!["getprop", "ro.product.model"]);
    assert_eq!(asked[11], vec!["test", "-d", "/sys/kernel/tracing/events"]);
    assert_eq!(asked[17], vec!["find", "/sys/kernel/tracing/events", "-maxdepth", "2", "-type", "d"]);
}

#[test]
fn missing_sys_enter_skips_sys_exit_and_root_failure_is_noted() {
    let start = Preflight::start("S1".into(), Err(AdbError::Io("denied".into())));
    assert!(!start.report.root);
    assert_eq!(start.method, RootMethod::Shell);
    assert_eq!(
        start.report.diagnostics,
        vec!["Root unavailable; checking unprivileged capture support (ADB I/O failed: denied)"]
    );
    let (p, asked) = run_rooted(start, false);
    assert_eq!(asked.len(), 18);
    assert!(!p.report.raw_syscalls);
    assert_eq!(p.report.diagnostics.len(), 2);
}

#[test]
fn failed_listing_and_query_leave_the_report_alone() {
    let mut p = Preflight::start("S1".into(), Ok(RootMethod::Shell));
    while p.step != PreflightStep::Events {
        match p.step {
            PreflightStep::TraceDir => p.on_test(false),
            s if matches!(s, PreflightStep::Btf | PreflightStep::Tracefs | PreflightStep::BlockIssue
                | PreflightStep::BlockComplete | PreflightStep::BlockInsert | PreflightStep::SysEnter
                | PreflightStep::SysExit) => p.on_test(false),
            _ => p.on_text("t".into()),
        }
    }
    assert_eq!(p.report.trace_root, "/sys/kernel/debug/tracing");
    p.on_events(None);
    assert!(p.report.ufs_events.is_empty());
    p.on_query(None);
    assert!(!p.report.perfetto);
    assert_eq!(p.step, PreflightStep::Done);
    assert!(p.command().is_none());
}

#[test]
fn deploy_creates_pushes_then_makes_executable() {
    let b = AdbCommandBuilder::new("SER1".into()).unwrap();
    let plan = deploy_commands(&b, RootMethod::Shell, "/host/agent", "/host/storage.o");
    let ops: Vec<&str> = plan.iter().map(|(op, _)| *op).collect();
    assert_eq!(ops, vec!["create remote directory", "push artifact", "push artifact", "chmod agent"]);
    assert_eq!(plan[0].1.args[3], "'mkdir' '-p' '/data/local/tmp/android-ebpf-studio'");
    assert_eq!(plan[1].1.args, vec!["-s", "SER1", "push", "/host/agent", "/data/local/tmp/android-ebpf-studio/agent"]);
    assert_eq!(plan[2].1.args[4], "/data/local/tmp/android-ebpf-studio/storage-ebpf.o");
    assert_eq!(plan[3].1.args[3], "'chmod' '0755' '/data/local/tmp/android-ebpf-studio/agent'");
}
