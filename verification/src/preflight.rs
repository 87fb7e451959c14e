//! The order of a device preflight and what each reply sets in the report:
//! root detection first (falling back to unprivileged probes), then device
//! identity, tracefs and tracepoint checks, the event directory listing and
//! the Perfetto query. A failing listing or query leaves the report as it
//! is; any other failing probe ends the preflight with that error. Also the
//! order in which the agent is installed.
use vstd::prelude::*;
use crate::adb::{adb_error_text, ebpf_ready, event_lines, first_mentioning, mentioning, not_ready_text, perfetto_support,
    strings_of, strs_of, trace_root_for, root_command, AdbCommandBuilder, AdbError, CommandSpec, PreflightReport,
    RootMethod};
use crate::text::{contains, lines_of};
use crate::text::{owned, push_str, string_from_chars};

verus! {

/// The probe a preflight waits for.
#[derive(Debug, Clone, Copy, PartialEq, Eq, Structural)]
pub enum PreflightStep {
    Model,
    BootId,
    Fingerprint,
    Mountinfo,
    Filesystems,
    Partitions,
    TraceDir,
    Abi,
    AndroidVersion,
    Kernel,
    Btf,
    Tracefs,
    BlockIssue,
    BlockComplete,
    BlockInsert,
    SysEnter,
    SysExit,
    Events,
    Query,
    Done,
}

/// Probes answered by their output text.
pub open spec fn text_step(s: PreflightStep) -> bool {
    s == PreflightStep::Model || s == PreflightStep::BootId || s == PreflightStep::Fingerprint
        || s == PreflightStep::Mountinfo || s == PreflightStep::Filesystems || s == PreflightStep::Partitions
        || s == PreflightStep::Abi || s == PreflightStep::AndroidVersion || s == PreflightStep::Kernel
}

/// Probes answered by whether the command succeeded.
pub open spec fn test_step(s: PreflightStep) -> bool {
    s == PreflightStep::TraceDir || s == PreflightStep::Btf || s == PreflightStep::Tracefs
        || s == PreflightStep::BlockIssue || s == PreflightStep::BlockComplete || s == PreflightStep::BlockInsert
        || s == PreflightStep::SysEnter || s == PreflightStep::SysExit
}

/// The probe after `s`, in order.
pub open spec fn step_after(s: PreflightStep) -> PreflightStep {
    match s {
        PreflightStep::Model => PreflightStep::BootId,
        PreflightStep::BootId => PreflightStep::Fingerprint,
        PreflightStep::Fingerprint => PreflightStep::Mountinfo,
        PreflightStep::Mountinfo => PreflightStep::Filesystems,
        PreflightStep::Filesystems => PreflightStep::Partitions,
        PreflightStep::Partitions => PreflightStep::TraceDir,
        PreflightStep::TraceDir => PreflightStep::Abi,
        PreflightStep::Abi => PreflightStep::AndroidVersion,
        PreflightStep::AndroidVersion => PreflightStep::Kernel,
        PreflightStep::Kernel => PreflightStep::Btf,
        PreflightStep::Btf => PreflightStep::Tracefs,
        PreflightStep::Tracefs => PreflightStep::BlockIssue,
        PreflightStep::BlockIssue => PreflightStep::BlockComplete,
        PreflightStep::BlockComplete => PreflightStep::BlockInsert,
        PreflightStep::BlockInsert => PreflightStep::SysEnter,
        PreflightStep::SysEnter => PreflightStep::SysExit,
        PreflightStep::SysExit => PreflightStep::Events,
        PreflightStep::Events => PreflightStep::Query,
        _ => PreflightStep::Done,
    }
}

/// The arguments of a probe, given the tracefs root.
pub open spec fn probe_args(s: PreflightStep, root: Seq<char>) -> Seq<Seq<char>> {
    match s {
        PreflightStep::Model => seq!["getprop"@, "ro.product.model"@],
        PreflightStep::BootId => seq!["cat"@, "/proc/sys/kernel/random/boot_id"@],
        PreflightStep::Fingerprint => seq!["getprop"@, "ro.build.fingerprint"@],
        PreflightStep::Mountinfo => seq!["cat"@, "/proc/self/mountinfo"@],
        PreflightStep::Filesystems => seq!["cat"@, "/proc/filesystems"@],
        PreflightStep::Partitions => seq!["cat"@, "/proc/partitions"@],
        PreflightStep::TraceDir => seq!["test"@, "-d"@, "/sys/kernel/tracing/events"@],
        PreflightStep::Abi => seq!["getprop"@, "ro.product.cpu.abi"@],
        PreflightStep::AndroidVersion => seq!["getprop"@, "ro.build.version.release"@],
        PreflightStep::Kernel => seq!["uname"@, "-r"@],
        PreflightStep::Btf => seq!["test"@, "-r"@, "/sys/kernel/btf/vmlinux"@],
        PreflightStep::Tracefs => seq!["test"@, "-d"@, root + "/events"@],
        PreflightStep::BlockIssue => seq!["test"@, "-r"@, root + "/events/block/block_rq_issue/format"@],
        PreflightStep::BlockComplete => seq!["test"@, "-r"@, root + "/events/block/block_rq_complete/format"@],
        PreflightStep::BlockInsert => seq!["test"@, "-r"@, root + "/events/block/block_rq_insert/format"@],
        PreflightStep::SysEnter => seq!["test"@, "-r"@, root + "/events/raw_syscalls/sys_enter/format"@],
        PreflightStep::SysExit => seq!["test"@, "-r"@, root + "/events/raw_syscalls/sys_exit/format"@],
        PreflightStep::Events => seq!["find"@, root + "/events"@, "-maxdepth"@, "2"@, "-type"@, "d"@],
        PreflightStep::Query => seq!["perfetto"@, "--query"@],
        PreflightStep::Done => seq![],
    }
}

pub open spec fn root_unavailable_text(e: AdbError) -> Seq<char> {
    "Root unavailable; checking unprivileged capture support ("@ + adb_error_text(e) + ")"@
}

/// A report before any probe: only the serial, root and its method, and
/// the root fallback's note are set.
pub open spec fn unprobed(r: PreflightReport) -> bool {
    &&& r.ebpf_start_error is None
    &&& !r.perfetto && !r.btf && !r.tracefs
    &&& !r.block_issue && !r.block_complete && !r.block_insert && !r.raw_syscalls
    &&& r.perfetto_version@.len() == 0 && r.model@.len() == 0 && r.boot_id@.len() == 0
    &&& r.build_fingerprint@.len() == 0 && r.mountinfo@.len() == 0 && r.filesystems@.len() == 0
    &&& r.block_devices@.len() == 0 && r.trace_root@.len() == 0 && r.abi@.len() == 0
    &&& r.android_version@.len() == 0 && r.kernel_release@.len() == 0
    &&& r.ufs_events@.len() == 0 && r.scsi_events@.len() == 0 && r.fs_events@.len() == 0
}

/// A device preflight in progress: the probe it waits for, the root method
/// its probes run with, and the report so far.
#[derive(Debug)]
pub struct Preflight {
    pub step: PreflightStep,
    pub method: RootMethod,
    pub report: PreflightReport,
}

impl Preflight {
    /// Starts from root detection's outcome: a found method marks root;
    /// otherwise the probes run unprivileged and the report says why.
    pub fn start(serial: String, detected: Result<RootMethod, AdbError>) -> (p: Self)
        ensures
            p.step == PreflightStep::Model,
            p.report.serial@ == serial@,
            p.report.root == detected is Ok,
            p.method == (match detected { Ok(m) => m, Err(_) => RootMethod::Shell }),
            p.report.root_method == p.method,
            strings_of(p.report.diagnostics@) == (match detected {
                Ok(_) => Seq::<Seq<char>>::empty(),
                Err(e) => seq![root_unavailable_text(e)],
            }),
            unprobed(p.report),
    {
        let mut report = PreflightReport::new(serial);
        let method = match detected {
            Ok(m) => {
                report.root = true;
                m
            },
            Err(e) => {
                let mut out: Vec<char> = Vec::new();
                push_str(&mut out, "Root unavailable; checking unprivileged capture support (");
                let m = e.message();
                push_str(&mut out, m.as_str());
                push_str(&mut out, ")");
                let note = string_from_chars(out.as_slice());
                report.diagnostics.push(note);
                assert(strings_of(report.diagnostics@) =~= seq![note@]);
                RootMethod::Shell
            },
        };
        report.root_method = method;
        assert(strings_of(Seq::<String>::empty()) =~= Seq::<Seq<char>>::empty());
        Preflight { step: PreflightStep::Model, method, report }
    }
}

fn joined(root: &String, suffix: &str) -> (r: String)
    ensures
        r@ == root@ + suffix@,
{
    let mut out: Vec<char> = Vec::new();
    push_str(&mut out, root.as_str());
    push_str(&mut out, suffix);
    string_from_chars(out.as_slice())
}

fn args2(a: &str, b: &str) -> (r: Vec<String>)
    ensures
        strings_of(r@) == seq![a@, b@],
{
    let mut v: Vec<String> = Vec::new();
    v.push(owned(a));
    v.push(owned(b));
    assert(strings_of(v@) =~= seq![a@, b@]);
    v
}

fn test_args(flag: &str, path: String) -> (r: Vec<String>)
    ensures
        strings_of(r@) == seq!["test"@, flag@, path@],
{
    let mut v: Vec<String> = Vec::new();
    v.push(owned("test"));
    v.push(owned(flag));
    v.push(path);
    assert(strings_of(v@) =~= seq!["test"@, flag@, path@]);
    v
}

impl Preflight {
    /// The probe to run now: the root method and the arguments; none once
    /// done. The Perfetto query always runs unprivileged.
    pub fn command(&self) -> (r: Option<(RootMethod, Vec<String>)>)
        ensures
            self.step == PreflightStep::Done <==> r is None,
            r matches Some((m, args)) ==> strings_of(args@) == probe_args(self.step, self.report.trace_root@)
                && m == (if self.step == PreflightStep::Query { RootMethod::Shell } else { self.method }),
    {
        let root = &self.report.trace_root;
        let args = match self.step {
            PreflightStep::Model => args2("getprop", "ro.product.model"),
            PreflightStep::BootId => args2("cat", "/proc/sys/kernel/random/boot_id"),
            PreflightStep::Fingerprint => args2("getprop", "ro.build.fingerprint"),
            PreflightStep::Mountinfo => args2("cat", "/proc/self/mountinfo"),
            PreflightStep::Filesystems => args2("cat", "/proc/filesystems"),
            PreflightStep::Partitions => args2("cat", "/proc/partitions"),
            PreflightStep::TraceDir => test_args("-d", owned("/sys/kernel/tracing/events")),
            PreflightStep::Abi => args2("getprop", "ro.product.cpu.abi"),
            PreflightStep::AndroidVersion => args2("getprop", "ro.build.version.release"),
            PreflightStep::Kernel => args2("uname", "-r"),
            PreflightStep::Btf => test_args("-r", owned("/sys/kernel/btf/vmlinux")),
            PreflightStep::Tracefs => test_args("-d", joined(root, "/events")),
            PreflightStep::BlockIssue => test_args("-r", joined(root, "/events/block/block_rq_issue/format")),
            PreflightStep::BlockComplete => test_args("-r", joined(root, "/events/block/block_rq_complete/format")),
            PreflightStep::BlockInsert => test_args("-r", joined(root, "/events/block/block_rq_insert/format")),
            PreflightStep::SysEnter => test_args("-r", joined(root, "/events/raw_syscalls/sys_enter/format")),
            PreflightStep::SysExit => test_args("-r", joined(root, "/events/raw_syscalls/sys_exit/format")),
            PreflightStep::Events => {
                let mut v: Vec<String> = Vec::new();
                v.push(owned("find"));
                v.push(joined(root, "/events"));
                v.push(owned("-maxdepth"));
                v.push(owned("2"));
                v.push(owned("-type"));
                v.push(owned("d"));
                assert(strings_of(v@) =~= probe_args(PreflightStep::Events, root@));
                v
            },
            PreflightStep::Query => return Some((RootMethod::Shell, args2("perfetto", "--query"))),
            PreflightStep::Done => return None,
        };
        Some((self.method, args))
    }

    /// A probe's output text, stored in the report's field for it.
    pub fn on_text(&mut self, text: String)
        requires
            text_step(old(self).step),
        ensures
            final(self).step == step_after(old(self).step),
            final(self).method == old(self).method,
            final(self).report == (match old(self).step {
                PreflightStep::Model => PreflightReport { model: text, ..old(self).report },
                PreflightStep::BootId => PreflightReport { boot_id: text, ..old(self).report },
                PreflightStep::Fingerprint => PreflightReport { build_fingerprint: text, ..old(self).report },
                PreflightStep::Mountinfo => PreflightReport { mountinfo: text, ..old(self).report },
                PreflightStep::Filesystems => PreflightReport { filesystems: text, ..old(self).report },
                PreflightStep::Partitions => PreflightReport { block_devices: text, ..old(self).report },
                PreflightStep::Abi => PreflightReport { abi: text, ..old(self).report },
                PreflightStep::AndroidVersion => PreflightReport { android_version: text, ..old(self).report },
                _ => PreflightReport { kernel_release: text, ..old(self).report },
            }),
    {
        match self.step {
            PreflightStep::Model => { self.report.model = text; self.step = PreflightStep::BootId; },
            PreflightStep::BootId => { self.report.boot_id = text; self.step = PreflightStep::Fingerprint; },
            PreflightStep::Fingerprint => { self.report.build_fingerprint = text; self.step = PreflightStep::Mountinfo; },
            PreflightStep::Mountinfo => { self.report.mountinfo = text; self.step = PreflightStep::Filesystems; },
            PreflightStep::Filesystems => { self.report.filesystems = text; self.step = PreflightStep::Partitions; },
            PreflightStep::Partitions => { self.report.block_devices = text; self.step = PreflightStep::TraceDir; },
            PreflightStep::Abi => { self.report.abi = text; self.step = PreflightStep::AndroidVersion; },
            PreflightStep::AndroidVersion => { self.report.android_version = text; self.step = PreflightStep::Kernel; },
            _ => { self.report.kernel_release = text; self.step = PreflightStep::Btf; },
        }
    }

    /// Whether a test probe succeeded. The tracefs root follows the first
    /// test; raw syscalls need both their entry and exit tracepoints, and
    /// the exit one is not probed when the entry one is missing.
    pub fn on_test(&mut self, passed: bool)
        requires
            test_step(old(self).step),
        ensures
            final(self).step == (if old(self).step == PreflightStep::SysEnter && !passed {
                PreflightStep::Events
            } else {
                step_after(old(self).step)
            }),
            final(self).method == old(self).method,
            old(self).step == PreflightStep::TraceDir ==> final(self).report.trace_root@
                == (if passed { "/sys/kernel/tracing"@ } else { "/sys/kernel/debug/tracing"@ }),
            final(self).report == (match old(self).step {
                PreflightStep::TraceDir => PreflightReport { trace_root: final(self).report.trace_root, ..old(self).report },
                PreflightStep::Btf => PreflightReport { btf: passed, ..old(self).report },
                PreflightStep::Tracefs => PreflightReport { tracefs: passed, ..old(self).report },
                PreflightStep::BlockIssue => PreflightReport { block_issue: passed, ..old(self).report },
                PreflightStep::BlockComplete => PreflightReport { block_complete: passed, ..old(self).report },
                PreflightStep::BlockInsert => PreflightReport { block_insert: passed, ..old(self).report },
                _ => PreflightReport { raw_syscalls: passed, ..old(self).report },
            }),
    {
        match self.step {
            PreflightStep::TraceDir => { self.report.trace_root = trace_root_for(passed); self.step = PreflightStep::Abi; },
            PreflightStep::Btf => { self.report.btf = passed; self.step = PreflightStep::Tracefs; },
            PreflightStep::Tracefs => { self.report.tracefs = passed; self.step = PreflightStep::BlockIssue; },
            PreflightStep::BlockIssue => { self.report.block_issue = passed; self.step = PreflightStep::BlockComplete; },
            PreflightStep::BlockComplete => { self.report.block_complete = passed; self.step = PreflightStep::BlockInsert; },
            PreflightStep::BlockInsert => { self.report.block_insert = passed; self.step = PreflightStep::SysEnter; },
            PreflightStep::SysEnter => {
                self.report.raw_syscalls = passed;
                self.step = if passed { PreflightStep::SysExit } else { PreflightStep::Events };
            },
            _ => { self.report.raw_syscalls = passed; self.step = PreflightStep::Events; },
        }
    }
}

/// At most the first `n` of `s`.
pub open spec fn capped(s: Seq<Seq<char>>, n: nat) -> Seq<Seq<char>> {
    if s.len() > n { s.take(n as int) } else { s }
}

/// The lines of a listing that mention a needle, at most `n`.
pub open spec fn listed_events(listing: Seq<char>, needles: Seq<Seq<char>>, n: nat) -> Seq<Seq<char>> {
    capped(mentioning(lines_of(listing), needles), n)
}

/// The Perfetto version line of a query reply.
pub open spec fn perfetto_version_of(query: Seq<char>) -> Seq<char> {
    match first_mentioning(lines_of(query), "Perfetto v"@) {
        Some(l) => l,
        None => "Perfetto service available"@,
    }
}

impl Preflight {
    /// The event directory listing, or its failure, which counts as an
    /// empty listing: UFS, SCSI and filesystem event lines.
    pub fn on_events(&mut self, listing: Option<String>)
        requires
            old(self).step == PreflightStep::Events,
        ensures
            final(self).step == PreflightStep::Query,
            final(self).method == old(self).method,
            ({
                let t = match listing { Some(l) => l@, None => Seq::<char>::empty() };
                &&& strings_of(final(self).report.ufs_events@) == listed_events(t, seq!["ufs"@], 128)
                &&& strings_of(final(self).report.scsi_events@) == listed_events(t, seq!["scsi"@], 128)
                &&& strings_of(final(self).report.fs_events@) == listed_events(t, seq!["f2fs"@, "ext4"@], 256)
            }),
            final(self).report == (PreflightReport {
                ufs_events: final(self).report.ufs_events,
                scsi_events: final(self).report.scsi_events,
                fs_events: final(self).report.fs_events,
                ..old(self).report
            }),
    {
        let ghost t = match &listing { Some(l) => l@, None => Seq::<char>::empty() };
        let text = match listing {
            Some(l) => l,
            None => {
                proof { reveal_strlit(""); }
                owned("")
            },
        };
        assert(text@ == t);
        let ufs: [&str; 1] = ["ufs"];
        let scsi: [&str; 1] = ["scsi"];
        let fs: [&str; 2] = ["f2fs", "ext4"];
        assert(strs_of(ufs@) =~= seq!["ufs"@]);
        assert(strs_of(scsi@) =~= seq!["scsi"@]);
        assert(strs_of(fs@) =~= seq!["f2fs"@, "ext4"@]);
        self.report.ufs_events = event_lines(text.as_str(), &ufs, 128);
        self.report.scsi_events = event_lines(text.as_str(), &scsi, 128);
        self.report.fs_events = event_lines(text.as_str(), &fs, 256);
        self.step = PreflightStep::Query;
    }

    /// The Perfetto query's reply, or its failure, which leaves Perfetto
    /// unsupported; then the readiness note, and the preflight is done.
    pub fn on_query(&mut self, reply: Option<String>)
        requires
            old(self).step == PreflightStep::Query,
        ensures
            final(self).step == PreflightStep::Done,
            final(self).method == old(self).method,
            match reply {
                Some(q) => final(self).report.perfetto == contains(q@, "linux.ftrace"@)
                    && final(self).report.perfetto_version@ == perfetto_version_of(q@),
                None => final(self).report.perfetto == old(self).report.perfetto
                    && final(self).report.perfetto_version == old(self).report.perfetto_version,
            },
            strings_of(final(self).report.diagnostics@) == (if ebpf_ready(old(self).report) {
                strings_of(old(self).report.diagnostics@)
            } else {
                strings_of(old(self).report.diagnostics@).push(not_ready_text())
            }),
            final(self).report == (PreflightReport {
                perfetto: final(self).report.perfetto,
                perfetto_version: final(self).report.perfetto_version,
                diagnostics: final(self).report.diagnostics,
                ..old(self).report
            }),
    {
        if let Some(q) = reply {
            let (ftrace, version) = perfetto_support(q.as_str());
            self.report.perfetto = ftrace;
            self.report.perfetto_version = version;
        }
        self.report.note_readiness();
        self.step = PreflightStep::Done;
    }
}

/// Where the agent and the eBPF object live on the phone.
pub fn remote_dir() -> (r: &'static str)
    ensures
        r@ == "/data/local/tmp/android-ebpf-studio"@,
{
    "/data/local/tmp/android-ebpf-studio"
}

pub fn remote_agent() -> (r: &'static str)
    ensures
        r@ == "/data/local/tmp/android-ebpf-studio/agent"@,
{
    "/data/local/tmp/android-ebpf-studio/agent"
}

pub fn remote_bpf() -> (r: &'static str)
    ensures
        r@ == "/data/local/tmp/android-ebpf-studio/storage-ebpf.o"@,
{
    "/data/local/tmp/android-ebpf-studio/storage-ebpf.o"
}

/// `adb -s SERIAL shell LINE` running `args` with `method`.
pub open spec fn is_root_shell(c: CommandSpec, b: AdbCommandBuilder, method: RootMethod, args: Seq<Seq<char>>) -> bool {
    c.program@ == b.adb_view() && strings_of(c.args@) == seq!["-s"@, b.serial_view(), "shell"@, root_command(method, args)]
}

/// `adb -s SERIAL push LOCAL REMOTE`.
pub open spec fn is_push(c: CommandSpec, b: AdbCommandBuilder, local: Seq<char>, remote: Seq<char>) -> bool {
    c.program@ == b.adb_view() && strings_of(c.args@) == seq!["-s"@, b.serial_view(), "push"@, local, remote]
}

/// Installing the agent, in order, each with the operation it reports on
/// failure: create the remote directory, push the agent, push the eBPF
/// object, make the agent executable.
pub fn deploy_commands(b: &AdbCommandBuilder, method: RootMethod, local_agent: &str, local_bpf: &str)
    -> (r: Vec<(&'static str, CommandSpec)>)
    ensures
        r@.len() == 4,
        r@[0].0@ == "create remote directory"@
            && is_root_shell(r@[0].1, *b, method, seq!["mkdir"@, "-p"@, "/data/local/tmp/android-ebpf-studio"@]),
        r@[1].0@ == "push artifact"@
            && is_push(r@[1].1, *b, local_agent@, "/data/local/tmp/android-ebpf-studio/agent"@),
        r@[2].0@ == "push artifact"@
            && is_push(r@[2].1, *b, local_bpf@, "/data/local/tmp/android-ebpf-studio/storage-ebpf.o"@),
        r@[3].0@ == "chmod agent"@
            && is_root_shell(r@[3].1, *b, method, seq!["chmod"@, "0755"@, "/data/local/tmp/android-ebpf-studio/agent"@]),
{
    let mkdir: [&str; 3] = ["mkdir", "-p", remote_dir()];
    let push_agent: [&str; 3] = ["push", local_agent, remote_agent()];
    let push_bpf: [&str; 3] = ["push", local_bpf, remote_bpf()];
    let chmod: [&str; 3] = ["chmod", "0755", remote_agent()];
    assert(strs_of(mkdir@) =~= seq!["mkdir"@, "-p"@, "/data/local/tmp/android-ebpf-studio"@]);
    assert(strs_of(push_agent@) =~= seq!["push"@, local_agent@, "/data/local/tmp/android-ebpf-studio/agent"@]);
    assert(strs_of(push_bpf@) =~= seq!["push"@, local_bpf@, "/data/local/tmp/android-ebpf-studio/storage-ebpf.o"@]);
    assert(strs_of(chmod@) =~= seq!["chmod"@, "0755"@, "/data/local/tmp/android-ebpf-studio/agent"@]);
    let c0 = b.root_shell(method, &mkdir);
    let c1 = b.host(&push_agent);
    let c2 = b.host(&push_bpf);
    let c3 = b.root_shell(method, &chmod);
    assert(seq!["-s"@, b.serial_view()] + strs_of(push_agent@)
        =~= seq!["-s"@, b.serial_view(), "push"@, local_agent@, "/data/local/tmp/android-ebpf-studio/agent"@]);
    assert(seq!["-s"@, b.serial_view()] + strs_of(push_bpf@)
        =~= seq!["-s"@, b.serial_view(), "push"@, local_bpf@, "/data/local/tmp/android-ebpf-studio/storage-ebpf.o"@]);
    let mut r: Vec<(&'static str, CommandSpec)> = Vec::new();
    r.push(("create remote directory", c0));
    r.push(("push artifact", c1));
    r.push(("push artifact", c2));
    r.push(("chmod agent", c3));
    r
}

} // verus!
