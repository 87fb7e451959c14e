use ebpf_studio::perfetto_capture::{
    check_owner_paths, config, duration_allowed, failed_start_trace_present, parse_pid_candidates, parse_u32,
    process_identity, remote_config_path, remote_trace_path, AliveProbe, AliveRefusal, CandidateError,
    IdentityRefusal, IdentitySearch, IdentityStep, IntError, OwnerError, PerfettoOwner, RecoveryRoute,
};

const STAT: &str = "4321 (perfetto (x)) S 1 4321 4321 0 -1 4194560 100 0 0 0 1 2 0 0 20 0 3 0 98765 1000 10";

#[test]
fn identity_reads_state_and_start_time_after_the_last_paren() {
    assert_eq!(process_identity(STAT), Some(('S', 98765)));
    assert_eq!(process_identity("4321 perfetto S 1"), None);
    assert_eq!(process_identity("4321 (p) Z 1 2 3"), None);
    assert_eq!(process_identity("1 (p) R 1 1 1 0 -1 0 0 0 0 0 0 0 0 0 20 0 1 0 x"), None);
}

#[test]
fn config_names_duration_and_block_tracepoints() {
    let c = config(5000);
    assert!(c.starts_with("buffers { size_kb: 16384 fill_policy: RING_BUFFER }\nduration_ms: 5000\n"));
    assert!(c.contains(" ftrace_events: \"block/block_rq_requeue\"\n"));
    assert!(c.ends_with("record_process_age: true\n} } }\n"));
    assert!(duration_allowed(1000));
    assert!(duration_allowed(3_600_000));
    assert!(!duration_allowed(999));
    assert!(!duration_allowed(3_600_001));
}

#[test]
fn owner_paths_must_match_the_canonical_token() {
    let token = "67E55044-10B1-426F-9247-BB680E5FE0C8";
    let canonical = "67e55044-10b1-426f-9247-bb680e5fe0c8";
    let trace = remote_trace_path(canonical);
    let cfg = remote_config_path(canonical);
    assert_eq!(trace, format!("/data/misc/perfetto-traces/aebpf-{canonical}.pftrace"));
    assert_eq!(cfg, format!("/data/misc/perfetto-configs/aebpf-{canonical}.pbtxt"));
    assert_eq!(check_owner_paths(token, &trace, &cfg).unwrap(), canonical);
    assert_eq!(check_owner_paths(canonical, &trace, &cfg).unwrap(), canonical);
    let wrong = check_owner_paths(canonical, "/sdcard/other.pftrace", &cfg).unwrap_err();
    assert!(matches!(wrong, OwnerError::UnexpectedRemotePaths));
    assert_eq!(wrong.message(), "Recovery manifest contains unexpected remote paths");
    let bad = check_owner_paths("not-a-uuid", &trace, &cfg).unwrap_err();
    assert!(matches!(bad, OwnerError::InvalidToken(_)));
    assert!(!bad.message().is_empty());
}

fn owner() -> PerfettoOwner {
    let token = "67e55044-10b1-426f-9247-bb680e5fe0c8";
    PerfettoOwner {
        serial: "S1".into(),
        boot_id: "boot-a".into(),
        token: token.into(),
        remote_config: remote_config_path(token),
        remote_trace: remote_trace_path(token),
        pid: Some(4321),
        process_start_ticks: Some(98765),
        duration_ms: 5000,
        local_trace: "/tmp/session/capture.pftrace".into(),
    }
}

#[test]
fn liveness_requires_boot_lifetime_and_owned_command() {
    let o = owner();
    let mut step = AliveProbe::start();
    assert_eq!(step.query().unwrap(), vec!["cat", "/proc/sys/kernel/random/boot_id"]);
    step = o.alive_next(step, "boot-a");
    assert_eq!(step, AliveProbe::CheckPresent(4321));
    assert_eq!(
        step.query().unwrap(),
        vec!["sh", "-c", "if test -e /proc/4321/stat; then echo present; else echo absent; fi"]
    );
    step = o.alive_next(step, "present");
    assert_eq!(step.query().unwrap(), vec!["cat", "/proc/4321/stat"]);
    step = o.alive_next(step, STAT);
    assert_eq!(step, AliveProbe::ReadCmdline(4321));
    assert_eq!(step.query().unwrap(), vec!["cat", "/proc/4321/cmdline"]);
    let cmdline = format!("perfetto\0--txt\0-c\0{}\0-o\0{}\0--background-wait\0", o.remote_config, o.remote_trace);
    assert_eq!(o.alive_next(step, &cmdline), AliveProbe::Alive(true));
    assert!(o.alive_next(AliveProbe::Alive(true), "x").query().is_none());
    assert_eq!(
        o.alive_next(step, "perfetto\0--txt"),
        AliveProbe::Refused(AliveRefusal::NotOwned)
    );
}

#[test]
fn liveness_never_signals_another_boot_or_process() {
    let o = owner();
    assert_eq!(o.alive_next(AliveProbe::ReadBoot, "boot-b"), AliveProbe::Refused(AliveRefusal::Rebooted));
    assert_eq!(o.alive_next(AliveProbe::CheckPresent(4321), "absent"), AliveProbe::Alive(false));
    let reused = STAT.replace("98765", "11111");
    assert_eq!(o.alive_next(AliveProbe::ReadStat(4321), &reused), AliveProbe::Alive(false));
    let zombie = STAT.replace(") S ", ") Z ");
    assert_eq!(o.alive_next(AliveProbe::ReadStat(4321), &zombie), AliveProbe::Alive(false));
    assert_eq!(
        o.alive_next(AliveProbe::ReadStat(4321), "garbage"),
        AliveProbe::Refused(AliveRefusal::MalformedIdentity)
    );
    let mut unconfirmed = owner();
    unconfirmed.pid = None;
    assert_eq!(
        unconfirmed.alive_next(AliveProbe::ReadBoot, "boot-a"),
        AliveProbe::Refused(AliveRefusal::PidUnconfirmed)
    );
    assert_eq!(AliveRefusal::PidUnconfirmed.message(), "Capture PID was not confirmed");
}

#[test]
fn u32_parsing_matches_std_including_error_text() {
    for text in ["0", "42", "+42", "+", "-", "-1", "", "4294967295", "4294967296", "99999999999x", "x9", "1 2"] {
        let chars: Vec<char> = text.chars().collect();
        let ours = parse_u32(&chars);
        match text.parse::<u32>() {
            Ok(v) => assert_eq!(ours, Ok(v), "{text}"),
            Err(e) => assert_eq!(ours.map_err(|k| k.message()), Err(e.to_string()), "{text}"),
        }
    }
    assert_eq!(parse_u32(&['9'; 11]), Err(IntError::PosOverflow));
}

#[test]
fn pid_candidates_are_sorted_unique_and_bounded() {
    assert_eq!(parse_pid_candidates(" 900 12 900\n45 ").unwrap(), vec![12, 45, 900]);
    assert_eq!(parse_pid_candidates("").unwrap(), Vec::<u32>::new());
    assert_eq!(parse_pid_candidates("12 1"), Err(CandidateError::Excessive));
    assert_eq!(parse_pid_candidates("12 abc"), Err(CandidateError::Unparsable(IntError::InvalidDigit)));
    let many: Vec<String> = (2..130).map(|p| p.to_string()).collect();
    assert_eq!(parse_pid_candidates(&many.join(" ")).unwrap().len(), 128);
    let too_many: Vec<String> = (2..131).map(|p| p.to_string()).collect();
    assert_eq!(parse_pid_candidates(&too_many.join(" ")), Err(CandidateError::Excessive));
}

#[test]
fn identity_search_accepts_only_a_unique_stable_owner() {
    let mut o = owner();
    o.pid = None;
    o.process_start_ticks = None;
    assert!(!o.identity_known());
    let mut s = IdentitySearch::start();
    assert_eq!(s.query().unwrap(), vec!["cat", "/proc/sys/kernel/random/boot_id"]);
    s.on_boot(&o, "boot-a");
    assert_eq!(s.step, IdentityStep::ListPids);
    assert_eq!(s.query().unwrap(), vec!["pidof", "perfetto"]);
    s.on_pid_list(true, Some(0), b"4321 77\n", b"");
    assert_eq!(s.candidates, vec![77, 4321]);
    assert_eq!(s.step, IdentityStep::StatBefore(0));
    assert_eq!(s.query().unwrap(), vec!["cat", "/proc/77/stat"]);
    s.on_stat_before("77 (perfetto) S 1 1 1 0 -1 0 0 0 0 0 0 0 0 0 20 0 1 0 555 0");
    assert_eq!(s.step, IdentityStep::Cmdline(0));
    assert_eq!(s.query().unwrap(), vec!["cat", "/proc/77/cmdline"]);
    s.on_cmdline(&o, "perfetto\0--txt\0-c\0/other.pbtxt");
    assert_eq!(s.step, IdentityStep::StatBefore(1));
    assert!(s.refusal.is_none());
    s.on_stat_before(STAT);
    let cmdline = format!("perfetto\0-c\0{}\0-o\0{}\0", o.remote_config, o.remote_trace);
    s.on_cmdline(&o, &cmdline);
    assert_eq!(s.step, IdentityStep::StatAfter(1));
    s.on_stat_after(STAT);
    assert_eq!(s.step, IdentityStep::Done);
    assert_eq!(s.found, Some((4321, 98765)));
    assert!(s.refusal.is_none());
    assert!(s.query().is_none());
}

#[test]
fn identity_search_refusals() {
    let o = owner();
    let mut s = IdentitySearch::start();
    s.on_boot(&o, "boot-b");
    assert_eq!(s.step, IdentityStep::Refused);
    assert_eq!(s.refusal.unwrap().message(), "Device rebooted; do not signal a previous boot's process");
    let mut s = IdentitySearch::start();
    s.on_boot(&o, "boot-a");
    s.on_pid_list(false, Some(1), b"", b"");
    assert_eq!(s.step, IdentityStep::Done);
    let mut s = IdentitySearch::start();
    s.on_boot(&o, "boot-a");
    s.on_pid_list(false, Some(2), b"", b"denied");
    assert_eq!(s.refusal.unwrap().message(), "Cannot enumerate Perfetto processes: denied");
    let mut s = IdentitySearch::start();
    s.on_boot(&o, "boot-a");
    s.on_pid_list(true, Some(0), b"4321", b"");
    s.on_stat_before(STAT);
    let cmdline = format!("{}\0{}", o.remote_config, o.remote_trace);
    s.on_cmdline(&o, &cmdline);
    s.on_stat_after(&STAT.replace("98765", "98766"));
    assert!(matches!(s.refusal, Some(IdentityRefusal::LifetimeChanged)));
    let mut s = IdentitySearch::start();
    s.on_boot(&o, "boot-a");
    s.on_pid_list(true, Some(0), b"4321 4322", b"");
    for _ in 0..2 {
        s.on_stat_before(STAT);
        s.on_cmdline(&o, &cmdline);
        s.on_stat_after(STAT);
    }
    assert!(matches!(s.refusal, Some(IdentityRefusal::Ambiguous)));
}

#[test]
fn recovery_and_failed_start_routes() {
    let o = owner();
    assert_eq!(o.recovery_route(""), RecoveryRoute::BootUnavailable);
    assert_eq!(o.recovery_route("boot-b"), RecoveryRoute::PullOnly);
    assert_eq!(o.recovery_route("boot-a"), RecoveryRoute::Identify);
    assert!(o.identity_known());
    assert_eq!(failed_start_trace_present(true, Some(0), true), Some(true));
    assert_eq!(failed_start_trace_present(false, Some(1), true), Some(false));
    assert_eq!(failed_start_trace_present(false, Some(1), false), None);
    assert_eq!(failed_start_trace_present(false, None, true), None);
}

#[test]
fn every_accepted_token_form_gives_the_lower_case_hyphenated_token() {
    let canonical = "550e8400-e29b-41d4-a716-446655440000";
    let trace = remote_trace_path(canonical);
    let cfg = remote_config_path(canonical);
    for token in [
        "550E8400E29B41D4A716446655440000",
        "550E8400-E29B-41D4-A716-446655440000",
        "{550e8400-e29b-41d4-a716-446655440000}",
        "URN:uuid:550e8400-E29B-41d4-a716-446655440000",
    ] {
        assert_eq!(check_owner_paths(token, &trace, &cfg).unwrap(), canonical);
    }
    for token in [
        "550e8400e29b41d4a71644665544000g",
        "550e8400+e29b-41d4-a716-446655440000",
        "(550e8400-e29b-41d4-a716-446655440000)",
        "urn:uuix:550e8400-e29b-41d4-a716-446655440000",
        "550e8400-e29b-41d4-a716-44665544000",
    ] {
        assert!(matches!(check_owner_paths(token, &trace, &cfg), Err(OwnerError::InvalidToken(_))));
    }
}
