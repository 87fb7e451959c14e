//! The names under which request classifications, capture modes, pipeline
//! layers and diagnostic levels are shown or passed on, and the text that
//! names the files a request was attributed to.
use vstd::prelude::*;
use crate::host_bw::IoOperation;
use crate::text::{decimal, push_decimal, push_str, str_chars, string_from_chars};

verus! {

pub open spec fn operation_name(o: IoOperation) -> Seq<char> {
    match o {
        IoOperation::Read => "Read"@,
        IoOperation::Write => "Write"@,
        IoOperation::Flush => "Flush"@,
        IoOperation::Discard => "Discard"@,
        IoOperation::Other => "Other"@,
    }
}

pub fn operation_label(value: IoOperation) -> (r: &'static str)
    ensures
        r@ == operation_name(value),
{
    match value {
        IoOperation::Read => "Read",
        IoOperation::Write => "Write",
        IoOperation::Flush => "Flush",
        IoOperation::Discard => "Discard",
        IoOperation::Other => "Other",
    }
}

/// Whether a request continued the previous one on its device.
#[derive(Debug, Clone, Copy, PartialEq, Eq, Structural)]
pub enum AccessPattern {
    Unknown,
    Sequential,
    Random,
}

pub open spec fn access_name(a: AccessPattern) -> Seq<char> {
    match a {
        AccessPattern::Unknown => "Unknown"@,
        AccessPattern::Sequential => "Sequential"@,
        AccessPattern::Random => "Random"@,
    }
}

pub fn access_label(value: AccessPattern) -> (r: &'static str)
    ensures
        r@ == access_name(value),
{
    match value {
        AccessPattern::Unknown => "Unknown",
        AccessPattern::Sequential => "Sequential",
        AccessPattern::Random => "Random",
    }
}

/// Requests below 32 KiB are small.
#[derive(Debug, Clone, Copy, PartialEq, Eq, Structural)]
pub enum IoSizeClass {
    Small,
    Large,
}

pub open spec fn size_name(s: IoSizeClass) -> Seq<char> {
    match s {
        IoSizeClass::Small => "Small (<32 KiB)"@,
        IoSizeClass::Large => "Large (≥32 KiB)"@,
    }
}

pub fn size_label(value: IoSizeClass) -> (r: &'static str)
    ensures
        r@ == size_name(value),
{
    match value {
        IoSizeClass::Small => "Small (<32 KiB)",
        IoSizeClass::Large => "Large (≥32 KiB)",
    }
}

/// How firmly a completion was matched to its issue.
#[derive(Debug, Clone, Copy, PartialEq, Eq, Structural)]
pub enum CorrelationConfidence {
    Exact,
    Probable,
    ContextOnly,
}

pub open spec fn confidence_name(c: CorrelationConfidence) -> Seq<char> {
    match c {
        CorrelationConfidence::Exact => "Exact"@,
        CorrelationConfidence::Probable => "Probable"@,
        CorrelationConfidence::ContextOnly => "Context only"@,
    }
}

pub fn confidence_label(value: CorrelationConfidence) -> (r: &'static str)
    ensures
        r@ == confidence_name(value),
{
    match value {
        CorrelationConfidence::Exact => "Exact",
        CorrelationConfidence::Probable => "Probable",
        CorrelationConfidence::ContextOnly => "Context only",
    }
}

/// How firmly a file was tied to a request.
#[derive(Debug, Clone, Copy, PartialEq, Eq, Structural)]
pub enum EdgeConfidence {
    Exact,
    Probable,
    ProbableAsync,
    ContextOnly,
}

pub open spec fn edge_confidence_name(c: EdgeConfidence) -> Seq<char> {
    match c {
        EdgeConfidence::Exact => "Exact"@,
        EdgeConfidence::Probable => "Probable"@,
        EdgeConfidence::ProbableAsync => "Probable async"@,
        EdgeConfidence::ContextOnly => "Context only"@,
    }
}

pub fn edge_confidence_label(value: EdgeConfidence) -> (r: &'static str)
    ensures
        r@ == edge_confidence_name(value),
{
    match value {
        EdgeConfidence::Exact => "Exact",
        EdgeConfidence::Probable => "Probable",
        EdgeConfidence::ProbableAsync => "Probable async",
        EdgeConfidence::ContextOnly => "Context only",
    }
}

/// Verbosity of the on-device agent's diagnostics.
#[derive(Debug, Clone, Copy, PartialEq, Eq, Structural)]
pub enum DiagnosticLevel {
    Trace,
    Debug,
    Info,
    Warn,
    Error,
}

pub open spec fn diagnostic_level_name(l: DiagnosticLevel) -> Seq<char> {
    match l {
        DiagnosticLevel::Trace => "trace"@,
        DiagnosticLevel::Debug => "debug"@,
        DiagnosticLevel::Info => "info"@,
        DiagnosticLevel::Warn => "warn"@,
        DiagnosticLevel::Error => "error"@,
    }
}

/// The agent's command-line spelling of a level.
pub fn diagnostic_level_arg(value: DiagnosticLevel) -> (r: &'static str)
    ensures
        r@ == diagnostic_level_name(value),
{
    match value {
        DiagnosticLevel::Trace => "trace",
        DiagnosticLevel::Debug => "debug",
        DiagnosticLevel::Info => "info",
        DiagnosticLevel::Warn => "warn",
        DiagnosticLevel::Error => "error",
    }
}

/// How much the agent records.
#[derive(Debug, Clone, Copy, PartialEq, Eq, Structural)]
pub enum CaptureMode {
    Basic,
    Balanced,
    Deep,
    RawAll,
}

pub open spec fn capture_mode_name(m: CaptureMode) -> Seq<char> {
    match m {
        CaptureMode::Basic => "Basic · aggregates only"@,
        CaptureMode::Balanced => "Balanced · tail + sample"@,
        CaptureMode::Deep => "Deep · pipeline/context"@,
        CaptureMode::RawAll => "RawAll · every event"@,
    }
}

pub fn capture_mode_label(mode: CaptureMode) -> (r: &'static str)
    ensures
        r@ == capture_mode_name(mode),
{
    match mode {
        CaptureMode::Basic => "Basic · aggregates only",
        CaptureMode::Balanced => "Balanced · tail + sample",
        CaptureMode::Deep => "Deep · pipeline/context",
        CaptureMode::RawAll => "RawAll · every event",
    }
}

/// Layers of the storage stack a request passes through.
#[derive(Debug, Clone, Copy, PartialEq, Eq, Structural)]
pub enum PipelineLayer {
    Syscall,
    Vfs,
    Filesystem,
    PageCache,
    Writeback,
    Bio,
    BlockQueue,
    BlockDevice,
    Scsi,
    Ufs,
    SchedulerContext,
    UicContext,
}

pub open spec fn pipeline_layer_name(l: PipelineLayer) -> Seq<char> {
    match l {
        PipelineLayer::Syscall => "UserSpace / Syscall"@,
        PipelineLayer::Vfs => "Kernel / VFS"@,
        PipelineLayer::Filesystem => "Kernel / Filesystem"@,
        PipelineLayer::PageCache => "Kernel / Page Cache"@,
        PipelineLayer::Writeback => "Kernel / Writeback"@,
        PipelineLayer::Bio => "Kernel / Bio"@,
        PipelineLayer::BlockQueue => "Kernel / Block Queue"@,
        PipelineLayer::BlockDevice => "Kernel / Block Device"@,
        PipelineLayer::Scsi => "Kernel / SCSI"@,
        PipelineLayer::Ufs => "Kernel / UFS"@,
        PipelineLayer::SchedulerContext => "Scheduler Context"@,
        PipelineLayer::UicContext => "UIC Context"@,
    }
}

pub fn pipeline_layer_label(value: PipelineLayer) -> (r: &'static str)
    ensures
        r@ == pipeline_layer_name(value),
{
    match value {
        PipelineLayer::Syscall => "UserSpace / Syscall",
        PipelineLayer::Vfs => "Kernel / VFS",
        PipelineLayer::Filesystem => "Kernel / Filesystem",
        PipelineLayer::PageCache => "Kernel / Page Cache",
        PipelineLayer::Writeback => "Kernel / Writeback",
        PipelineLayer::Bio => "Kernel / Bio",
        PipelineLayer::BlockQueue => "Kernel / Block Queue",
        PipelineLayer::BlockDevice => "Kernel / Block Device",
        PipelineLayer::Scsi => "Kernel / SCSI",
        PipelineLayer::Ufs => "Kernel / UFS",
        PipelineLayer::SchedulerContext => "Scheduler Context",
        PipelineLayer::UicContext => "UIC Context",
    }
}

/// A file a request was attributed to: the path its snapshot recorded, if
/// any, the label of its file identity, and how firmly it was tied.
#[derive(Debug, Clone)]
pub struct FileOrigin {
    pub path: Option<String>,
    pub fallback_label: String,
    pub confidence: EdgeConfidence,
}

/// The group a request's files put it in: its one file's path (or identity
/// label), or how many files it had.
pub open spec fn group_key(origins: Seq<FileOrigin>) -> Seq<char> {
    if origins.len() == 0 {
        "Unattributed"@
    } else if origins.len() == 1 {
        match origins[0].path {
            Some(p) => p@,
            None => origins[0].fallback_label@,
        }
    } else {
        "Multiple files ("@ + decimal(origins.len()) + ")"@
    }
}

pub fn file_group_key(origins: &[FileOrigin]) -> (r: String)
    ensures
        r@ == group_key(origins@),
{
    if origins.len() == 0 {
        return crate::text::owned("Unattributed");
    }
    if origins.len() == 1 {
        return match &origins[0].path {
            Some(p) => p.clone(),
            None => origins[0].fallback_label.clone(),
        };
    }
    let mut out: Vec<char> = Vec::new();
    push_str(&mut out, "Multiple files (");
    push_decimal(&mut out, origins.len() as u64);
    push_str(&mut out, ")");
    string_from_chars(out.as_slice())
}

/// Line breaks in a path become spaces, so that each file keeps one line.
pub open spec fn one_line(p: Seq<char>) -> Seq<char> {
    Seq::new(p.len(), |i: int| if p[i] == '\r' || p[i] == '\n' { ' ' } else { p[i] })
}

pub open spec fn origin_path_text(o: FileOrigin) -> Seq<char> {
    if o.path is Some && o.path->0@.len() > 0 {
        one_line(o.path->0@)
    } else {
        "<path unresolved> · "@ + o.fallback_label@ + " · no matching path snapshot"@
    }
}

pub open spec fn origin_line(o: FileOrigin) -> Seq<char> {
    "  "@ + origin_path_text(o) + " ["@ + edge_confidence_name(o.confidence) + "]"@
}

/// The lines of the first `n` files, each after a line break.
pub open spec fn origin_lines(os: Seq<FileOrigin>, n: int) -> Seq<char>
    decreases n,
{
    if n <= 0 {
        seq![]
    } else {
        origin_lines(os, n - 1) + "\n"@ + origin_line(os[n - 1])
    }
}

/// The tooltip naming a request's files: at most four of them, with their
/// confidence, and how many more there are.
pub open spec fn origin_tooltip(os: Seq<FileOrigin>) -> Seq<char> {
    if os.len() == 0 {
        "File: <unattributed>\nReason: no observed file identity or defensible file correlation for this request"@
    } else {
        let header = if os.len() == 1 { "File:"@ } else { "Files ("@ + decimal(os.len()) + "):"@ };
        let shown = if os.len() < 4 { os.len() as int } else { 4 };
        let more = if os.len() > 4 { "\n  +"@ + decimal((os.len() - 4) as nat) + " more"@ } else { seq![] };
        header + origin_lines(os, shown) + more
    }
}

fn push_one_line(out: &mut Vec<char>, v: &Vec<char>)
    ensures
        final(out)@ == old(out)@ + one_line(v@),
{
    let ghost p = v@;
    let mut i: usize = 0;
    while i < v.len()
        invariant
            i <= v@.len(),
            v@ == p,
            out@ == old(out)@ + one_line(p).take(i as int),
        decreases v.len() - i,
    {
        let c = v[i];
        out.push(if c == '\r' || c == '\n' { ' ' } else { c });
        i += 1;
        assert(one_line(p).take(i as int) =~= one_line(p).take(i - 1).push(one_line(p)[i - 1]));
    }
    assert(one_line(p).take(v@.len() as int) =~= one_line(p));
}

fn push_origin_line(out: &mut Vec<char>, o: &FileOrigin)
    ensures
        final(out)@ == old(out)@ + "\n"@ + origin_line(*o),
{
    push_str(out, "\n");
    push_str(out, "  ");
    let mut resolved = false;
    if let Some(p) = &o.path {
        let v = str_chars(p.as_str());
        if v.len() > 0 {
            push_one_line(out, &v);
            resolved = true;
        }
    }
    if !resolved {
        push_str(out, "<path unresolved> · ");
        push_str(out, o.fallback_label.as_str());
        push_str(out, " · no matching path snapshot");
    }
    push_str(out, " [");
    push_str(out, edge_confidence_label(o.confidence));
    push_str(out, "]");
    proof {
        assert(final(out)@ =~= old(out)@ + "\n"@ + origin_line(*o));
    }
}

pub fn file_origin_tooltip(origins: &[FileOrigin]) -> (r: String)
    ensures
        r@ == origin_tooltip(origins@),
{
    if origins.len() == 0 {
        return crate::text::owned(
            "File: <unattributed>\nReason: no observed file identity or defensible file correlation for this request",
        );
    }
    let mut out: Vec<char> = Vec::new();
    if origins.len() == 1 {
        push_str(&mut out, "File:");
    } else {
        push_str(&mut out, "Files (");
        push_decimal(&mut out, origins.len() as u64);
        push_str(&mut out, "):");
    }
    let ghost header = out@;
    let shown: usize = if origins.len() < 4 { origins.len() } else { 4 };
    let mut i: usize = 0;
    while i < shown
        invariant
            i <= shown <= origins@.len(),
            out@ == header + origin_lines(origins@, i as int),
        decreases shown - i,
    {
        push_origin_line(&mut out, &origins[i]);
        i += 1;
        assert(out@ =~= header + origin_lines(origins@, i as int));
    }
    if origins.len() > 4 {
        push_str(&mut out, "\n  +");
        push_decimal(&mut out, (origins.len() - 4) as u64);
        push_str(&mut out, " more");
    }
    proof {
        assert(out@ =~= origin_tooltip(origins@));
    }
    string_from_chars(out.as_slice())
}

} // verus!
