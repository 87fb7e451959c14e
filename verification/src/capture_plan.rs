//! Which capture source a session uses, and when a failed eBPF start may
//! fall back to another source.
use vstd::prelude::*;
use crate::adb::{ebpf_ready, strings_of, PreflightReport};
use crate::text::{owned, str_eq};

verus! {

#[derive(Debug, Clone, Copy, PartialEq, Eq, Structural)]
pub enum CaptureSource {
    Ebpf,
    Perfetto,
    DeviceCounters,
}

/// Full eBPF when the device is ready for it, else Perfetto when the phone
/// offers its ftrace source, else the accessible device counters.
pub fn capture_source(report: &PreflightReport) -> (r: CaptureSource)
    ensures
        r == (if ebpf_ready(*report) {
            CaptureSource::Ebpf
        } else if report.perfetto {
            CaptureSource::Perfetto
        } else {
            CaptureSource::DeviceCounters
        }),
{
    if report.full_ebpf_ready() {
        CaptureSource::Ebpf
    } else if report.perfetto {
        CaptureSource::Perfetto
    } else {
        CaptureSource::DeviceCounters
    }
}

/// A failed eBPF start falls back only when the collector never became
/// ready, nothing was measured, the user did not stop, and the device had
/// been judged ready for eBPF.
pub fn fallback_allowed(capture_ready: bool, measurement_seen: bool, stopped: bool, detected_ready: bool) -> (r: bool)
    ensures
        r == (!capture_ready && !measurement_seen && !stopped && detected_ready),
{
    !capture_ready && !measurement_seen && !stopped && detected_ready
}

pub open spec fn boot_changed_text() -> Seq<char> {
    "Device boot changed during preparation; partial data preserved. Start a new session after reconnecting"@
}

pub open spec fn fallback_note_text() -> Seq<char> {
    "eBPF collector startup failed; automatic fallback uses Perfetto when available, otherwise accessible device counters"@
}

/// After the failed collector exits, the fresh report must describe the
/// same boot as the original; the failure is then recorded in the report and
/// the fallback source is chosen. A session never continues across a reboot.
pub fn fallback_source(original_boot: &str, report: &mut PreflightReport, error: String) -> (r: Result<CaptureSource, String>)
    ensures
        (original_boot@.len() > 0 && original_boot@ == old(report).boot_id@) <==> r is Ok,
        r matches Err(m) ==> m@ == boot_changed_text() && *final(report) == *old(report),
        r matches Ok(s) ==> s == (if old(report).perfetto { CaptureSource::Perfetto } else { CaptureSource::DeviceCounters })
            && (final(report).ebpf_start_error matches Some(e) && e@ == error@)
            && strings_of(final(report).diagnostics@) == strings_of(old(report).diagnostics@).push(fallback_note_text())
            && *final(report) == (PreflightReport {
                ebpf_start_error: final(report).ebpf_start_error,
                diagnostics: final(report).diagnostics,
                ..*old(report)
            }),
{
    let empty = crate::text::str_chars(original_boot).len() == 0;
    if empty || !str_eq(original_boot, report.boot_id.as_str()) {
        return Err(owned("Device boot changed during preparation; partial data preserved. Start a new session after reconnecting"));
    }
    report.ebpf_start_error = Some(error);
    let ghost prev = report.diagnostics@;
    let note = owned("eBPF collector startup failed; automatic fallback uses Perfetto when available, otherwise accessible device counters");
    report.diagnostics.push(note);
    proof { assert(strings_of(report.diagnostics@) =~= strings_of(prev).push(note@)); }
    if report.perfetto { Ok(CaptureSource::Perfetto) } else { Ok(CaptureSource::DeviceCounters) }
}

} // verus!
