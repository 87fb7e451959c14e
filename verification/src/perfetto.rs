//! Bounded decoding of Perfetto's public protobuf trace format into block
//! tracepoint records, process metadata and trace-quality evidence. Raw trace
//! bytes remain the source of truth; nothing here invents kernel request IDs.
use vstd::prelude::*;
use crate::protobuf::{DecodeError, Field, WireValue, error_message, spec_fields, spec_number, spec_bytes, spec_children, count_id, spec_varint, fields, number, bytes, children, count_fields, varint, ranges_within, lemma_children_within, lemma_varint_progress, lemma_varint_extend, lemma_varint_shift};
use crate::text::{decimal, utf8_lossy, lossy_text, push_decimal, push_str, string_from_chars};
use crate::text_order::{keyed_view, keys_ascending, lemma_put_ascending, lemma_set_insert_ascending, text_map_put, text_map_set, text_set_add, text_set_insert, texts_ascending, texts_view};

verus! {

pub const MAX_PACKET: usize = 16777216;
pub const MAX_EVENTS: usize = 2000000;
pub const MAX_METADATA: usize = 200000;
pub const MAX_DIAGNOSTICS: usize = 128;
pub const MAX_TEXT: usize = 4096;

#[derive(Debug, Clone, Copy, PartialEq, Eq, Structural)]
pub enum BlockKind {
    Issue,
    Complete,
    Insert,
    Requeue,
}

/// One block tracepoint record.
#[derive(Debug)]
pub struct BlockEvent {
    /// Trace-local record number, not a request pointer or kernel request ID.
    pub record_id: u64,
    pub kind: BlockKind,
    pub timestamp_ns: u64,
    pub cpu: Option<u32>,
    /// Kernel tracepoint common_pid is a TID, including completion context.
    pub tid: Option<u32>,
    pub device_encoded: u64,
    pub sector: u64,
    pub sectors: u32,
    pub bytes: u64,
    pub rwbs: String,
    pub comm: Option<String>,
    pub error: Option<i32>,
    /// Zero denotes Perfetto's default boot clock; other domains are kept but
    /// never treated as globally synchronized timestamps.
    pub clock: u32,
}

#[verifier::ext_equal]
pub struct EventView {
    pub record_id: u64,
    pub kind: BlockKind,
    pub timestamp_ns: u64,
    pub cpu: Option<u32>,
    pub tid: Option<u32>,
    pub device_encoded: u64,
    pub sector: u64,
    pub sectors: u32,
    pub bytes: u64,
    pub rwbs: Seq<char>,
    pub comm: Option<Seq<char>>,
    pub error: Option<i32>,
    pub clock: u32,
}

pub open spec fn opt_str(o: Option<String>) -> Option<Seq<char>> {
    match o {
        Some(s) => Some(s@),
        None => None,
    }
}

impl View for BlockEvent {
    type V = EventView;

    open spec fn view(&self) -> EventView {
        EventView {
            record_id: self.record_id,
            kind: self.kind,
            timestamp_ns: self.timestamp_ns,
            cpu: self.cpu,
            tid: self.tid,
            device_encoded: self.device_encoded,
            sector: self.sector,
            sectors: self.sectors,
            bytes: self.bytes,
            rwbs: self.rwbs@,
            comm: opt_str(self.comm),
            error: self.error,
            clock: self.clock,
        }
    }
}

pub fn clone_opt_string(o: &Option<String>) -> (r: Option<String>)
    ensures
        opt_str(r) == opt_str(*o),
{
    match o {
        Some(s) => Some(s.clone()),
        None => None,
    }
}

impl BlockEvent {
    /// A field-for-field copy.
    pub fn duplicate(&self) -> (r: BlockEvent)
        ensures
            r@ == self@,
    {
        BlockEvent {
            record_id: self.record_id,
            kind: self.kind,
            timestamp_ns: self.timestamp_ns,
            cpu: self.cpu,
            tid: self.tid,
            device_encoded: self.device_encoded,
            sector: self.sector,
            sectors: self.sectors,
            bytes: self.bytes,
            rwbs: self.rwbs.clone(),
            comm: clone_opt_string(&self.comm),
            error: self.error,
            clock: self.clock,
        }
    }
}

/// One process or thread row of a process-tree snapshot.
#[derive(Debug)]
pub struct ProcessMetadata {
    pub snapshot_ns: Option<u64>,
    pub pid: u32,
    pub tid: Option<u32>,
    pub name: String,
    pub start_from_boot_ns: Option<u64>,
}

#[verifier::ext_equal]
pub struct ProcessView {
    pub snapshot_ns: Option<u64>,
    pub pid: u32,
    pub tid: Option<u32>,
    pub name: Seq<char>,
    pub start_from_boot_ns: Option<u64>,
}

impl View for ProcessMetadata {
    type V = ProcessView;

    open spec fn view(&self) -> ProcessView {
        ProcessView {
            snapshot_ns: self.snapshot_ns,
            pid: self.pid,
            tid: self.tid,
            name: self.name@,
            start_from_boot_ns: self.start_from_boot_ns,
        }
    }
}

/// Per-CPU ring-buffer counters: overrun, commit overrun, dropped events.
/// A missing counter stays unknown; it is never read as a measured zero.
#[derive(Debug, Clone, Copy, PartialEq, Eq, Structural)]
pub struct CpuCounters {
    pub overrun: Option<u64>,
    pub commit_overrun: Option<u64>,
    pub dropped_events: Option<u64>,
}

/// Evidence about how complete and trustworthy a decoded trace is.
/// Set-like fields hold each value once and map-like fields each key once,
/// all in ascending order, as `BTreeSet` and `BTreeMap` iterate.
#[derive(Debug)]
pub struct TraceQuality {
    pub packets: u64,
    pub lost_bundles: u64,
    pub parse_errors: u64,
    pub unsupported_clocks: Vec<u32>,
    pub unknown_events: Vec<String>,
    pub failed_events: Vec<String>,
    pub diagnostics: Vec<String>,
    pub ftrace_start_seen: bool,
    pub ftrace_end_seen: bool,
    pub kernel_start: Vec<(u64, CpuCounters)>,
    pub kernel_end: Vec<(u64, CpuCounters)>,
    pub truncated: bool,
    pub projection_limited: bool,
    pub service_stats_seen: bool,
    pub service_loss_counters: Vec<(String, u64)>,
    pub final_flush_outcome: Option<u64>,
}

#[verifier::ext_equal]
pub struct QualityView {
    pub packets: u64,
    pub lost_bundles: u64,
    pub parse_errors: u64,
    pub unsupported_clocks: Seq<u32>,
    pub unknown_events: Seq<Seq<char>>,
    pub failed_events: Seq<Seq<char>>,
    pub diagnostics: Seq<Seq<char>>,
    pub ftrace_start_seen: bool,
    pub ftrace_end_seen: bool,
    pub kernel_start: Seq<(u64, CpuCounters)>,
    pub kernel_end: Seq<(u64, CpuCounters)>,
    pub truncated: bool,
    pub projection_limited: bool,
    pub service_stats_seen: bool,
    pub service_loss_counters: Seq<(Seq<char>, u64)>,
    pub final_flush_outcome: Option<u64>,
}

pub open spec fn events_view(v: Seq<BlockEvent>) -> Seq<EventView> {
    v.map_values(|e: BlockEvent| e@)
}

impl View for TraceQuality {
    type V = QualityView;

    open spec fn view(&self) -> QualityView {
        QualityView {
            packets: self.packets,
            lost_bundles: self.lost_bundles,
            parse_errors: self.parse_errors,
            unsupported_clocks: self.unsupported_clocks@,
            unknown_events: texts_view(self.unknown_events@),
            failed_events: texts_view(self.failed_events@),
            diagnostics: texts_view(self.diagnostics@),
            ftrace_start_seen: self.ftrace_start_seen,
            ftrace_end_seen: self.ftrace_end_seen,
            kernel_start: self.kernel_start@,
            kernel_end: self.kernel_end@,
            truncated: self.truncated,
            projection_limited: self.projection_limited,
            service_stats_seen: self.service_stats_seen,
            service_loss_counters: keyed_view(self.service_loss_counters@),
            final_flush_outcome: self.final_flush_outcome,
        }
    }
}

/// Everything decoded from one trace.
#[derive(Debug)]
pub struct DecodedTrace {
    pub events: Vec<BlockEvent>,
    pub processes: Vec<ProcessMetadata>,
    pub quality: TraceQuality,
}

#[verifier::ext_equal]
pub struct TraceView {
    pub events: Seq<EventView>,
    pub processes: Seq<ProcessView>,
    pub quality: QualityView,
}

impl View for DecodedTrace {
    type V = TraceView;

    open spec fn view(&self) -> TraceView {
        TraceView {
            events: events_view(self.events@),
            processes: self.processes@.map_values(|p: ProcessMetadata| p@),
            quality: self.quality@,
        }
    }
}

// ---------------------------------------------------------------------------
// Collection semantics used by the quality record.

/// Adds `x` unless it is already present.
pub open spec fn set_insert<T>(s: Seq<T>, x: T) -> Seq<T> {
    if s.contains(x) { s } else { s.push(x) }
}

/// Index of the entry with key `k`, if any.
pub open spec fn key_index<K, V>(s: Seq<(K, V)>, k: K) -> Option<int>
    decreases s.len(),
{
    if s.len() == 0 {
        None
    } else if s.last().0 == k {
        Some(s.len() - 1)
    } else {
        key_index(s.drop_last(), k)
    }
}

/// `x` added to a set kept in ascending order, as a `BTreeSet` iterates.
pub open spec fn ordered_insert(s: Seq<u32>, x: u32) -> Seq<u32>
    decreases s.len(),
{
    if s.len() == 0 {
        seq![x]
    } else if s[0] == x {
        s
    } else if x < s[0] {
        seq![x] + s
    } else {
        seq![s[0]] + ordered_insert(s.skip(1), x)
    }
}

/// Key `k` set to `v` in a map kept in ascending key order, as a `BTreeMap`
/// iterates; an existing entry is replaced only when `replace` holds.
pub open spec fn ordered_put<V>(s: Seq<(u64, V)>, k: u64, v: V, replace: bool) -> Seq<(u64, V)>
    decreases s.len(),
{
    if s.len() == 0 {
        seq![(k, v)]
    } else if s[0].0 == k {
        if replace { seq![(k, v)] + s.skip(1) } else { s }
    } else if k < s[0].0 {
        seq![(k, v)] + s
    } else {
        seq![s[0]] + ordered_put(s.skip(1), k, v, replace)
    }
}

/// Counters saturate instead of wrapping.
pub open spec fn bump(n: u64, k: nat) -> u64 {
    if n + k > u64::MAX { u64::MAX } else { (n + k) as u64 }
}

pub open spec fn add_diagnostic(q: QualityView, message: Seq<char>) -> QualityView {
    if q.diagnostics.len() < MAX_DIAGNOSTICS {
        QualityView { diagnostics: q.diagnostics.push(message), ..q }
    } else {
        q
    }
}

pub open spec fn empty_quality() -> QualityView {
    QualityView {
        packets: 0,
        lost_bundles: 0,
        parse_errors: 0,
        unsupported_clocks: seq![],
        unknown_events: seq![],
        failed_events: seq![],
        diagnostics: seq![],
        ftrace_start_seen: false,
        ftrace_end_seen: false,
        kernel_start: seq![],
        kernel_end: seq![],
        truncated: false,
        projection_limited: false,
        service_stats_seen: false,
        service_loss_counters: seq![],
        final_flush_outcome: None,
    }
}

pub open spec fn empty_trace() -> TraceView {
    TraceView { events: seq![], processes: seq![], quality: empty_quality() }
}

/// Text of the last length-delimited field `id`, at most 4096 bytes, decoded lossily.
pub open spec fn spec_text(f: Seq<Field>, id: u32, msg: Seq<u8>) -> Option<Seq<char>> {
    match spec_bytes(f, id) {
        None => None,
        Some((a, b)) => Some(utf8_lossy(msg.subrange(a as int, if b - a > MAX_TEXT { a + MAX_TEXT } else { b as int }))),
    }
}

pub open spec fn narrow_u32(v: Option<u64>) -> Option<u32> {
    match v {
        Some(n) if n <= u32::MAX => Some(n as u32),
        _ => None,
    }
}

// ---------------------------------------------------------------------------
// Semantics of each trace message, as transitions of the decoded state. A
// failure keeps every change made before it, exactly as the decoder does.

/// Ftrace event field ids that carry block tracepoints, in the order checked.
pub open spec fn kind_id(k: nat) -> u32 {
    if k == 0 { 45 } else if k == 1 { 125 } else if k == 2 { 126 } else { 129 }
}

pub open spec fn kind_of(k: nat) -> BlockKind {
    if k == 0 { BlockKind::Issue } else if k == 1 { BlockKind::Complete } else if k == 2 { BlockKind::Insert } else { BlockKind::Requeue }
}

/// Whether records of this kind carry a byte count and command name.
pub open spec fn carries_bytes(kind: BlockKind) -> bool {
    kind == BlockKind::Issue || kind == BlockKind::Insert
}

pub open spec fn required_number(f: Seq<Field>, id: u32) -> Result<u64, DecodeError> {
    match spec_number(f, id) {
        Some(v) => Ok(v),
        None => Err(DecodeError::MissingField(id)),
    }
}

/// The record built from one block tracepoint payload, numbered `n + 1`.
pub open spec fn spec_block_event(
    n: nat,
    kind: BlockKind,
    e: Seq<Field>,
    b: Seq<Field>,
    payload: Seq<u8>,
    cpu: Option<u32>,
    clock: u32,
) -> Result<EventView, DecodeError> {
    match required_number(b, 3) {
        Err(x) => Err(x),
        Ok(sec) => if sec > u32::MAX {
            Err(DecodeError::OutOfRange)
        } else {
            match required_number(e, 1) {
                Err(x) => Err(x),
                Ok(ts) => match required_number(b, 1) {
                    Err(x) => Err(x),
                    Ok(dev) => match required_number(b, 2) {
                        Err(x) => Err(x),
                        Ok(sector) => {
                            let byte_count: Result<u64, DecodeError> = if carries_bytes(kind) {
                                required_number(b, 4)
                            } else {
                                Ok((sec * 512) as u64)
                            };
                            match byte_count {
                                Err(x) => Err(x),
                                Ok(nb) => match spec_text(b, 5, payload) {
                                    None => Err(DecodeError::MissingRwbs),
                                    Some(rwbs) => Ok(EventView {
                                        record_id: (n + 1) as u64,
                                        kind,
                                        timestamp_ns: ts,
                                        cpu,
                                        tid: narrow_u32(spec_number(e, 2)),
                                        device_encoded: dev,
                                        sector,
                                        sectors: sec as u32,
                                        bytes: nb,
                                        rwbs,
                                        comm: if carries_bytes(kind) { spec_text(b, 6, payload) } else { None },
                                        error: if carries_bytes(kind) {
                                            None
                                        } else {
                                            match spec_number(b, 7) {
                                                Some(x) => Some(x as i32),
                                                None => match spec_number(b, 4) {
                                                    Some(x) => Some(x as i32),
                                                    None => None,
                                                },
                                            }
                                        },
                                        clock,
                                    }),
                                },
                            }
                        },
                    },
                },
            }
        },
    }
}

pub open spec fn mark_limited(st: TraceView) -> TraceView {
    TraceView { quality: QualityView { projection_limited: true, ..st.quality }, ..st }
}

/// Block kinds `k..4` of one ftrace event message `ev` with fields `e`.
pub open spec fn kinds_from(st: TraceView, ev: Seq<u8>, e: Seq<Field>, k: nat, cpu: Option<u32>, clock: u32) -> (TraceView, Option<DecodeError>)
    decreases 4 - k,
{
    if k >= 4 {
        (st, None)
    } else {
        match spec_bytes(e, kind_id(k)) {
            None => kinds_from(st, ev, e, k + 1, cpu, clock),
            Some((a, b)) => if st.events.len() >= MAX_EVENTS {
                kinds_from(mark_limited(st), ev, e, k + 1, cpu, clock)
            } else {
                let payload = ev.subrange(a as int, b as int);
                match spec_fields(payload) {
                    Err(x) => (st, Some(x)),
                    Ok(bf) => match spec_block_event(st.events.len(), kind_of(k), e, bf, payload, cpu, clock) {
                        Err(x) => (st, Some(x)),
                        Ok(event) => kinds_from(TraceView { events: st.events.push(event), ..st }, ev, e, k + 1, cpu, clock),
                    },
                }
            },
        }
    }
}

/// Ftrace events `list[i..]` of a bundle `d`.
pub open spec fn events_from(st: TraceView, d: Seq<u8>, list: Seq<(usize, usize)>, i: nat, cpu: Option<u32>, clock: u32) -> (TraceView, Option<DecodeError>)
    decreases list.len() - i,
{
    if i >= list.len() {
        (st, None)
    } else {
        let ev = d.subrange(list[i as int].0 as int, list[i as int].1 as int);
        match spec_fields(ev) {
            Err(x) => (st, Some(x)),
            Ok(e) => {
                let (st1, r) = kinds_from(st, ev, e, 0, cpu, clock);
                match r {
                    Some(x) => (st1, Some(x)),
                    None => events_from(st1, d, list, i + 1, cpu, clock),
                }
            },
        }
    }
}

/// The clock of a bundle: field 5, truncated to 32 bits, default 0.
pub open spec fn bundle_clock(f: Seq<Field>) -> u32 {
    match spec_number(f, 5) {
        Some(v) => v as u32,
        None => 0,
    }
}

/// An ftrace event bundle: clock, loss and error flags, then its events.
pub open spec fn bundle_step(st: TraceView, d: Seq<u8>) -> (TraceView, Option<DecodeError>) {
    match spec_fields(d) {
        Err(x) => (st, Some(x)),
        Ok(f) => {
            let cpu = narrow_u32(spec_number(f, 1));
            let clock = bundle_clock(f);
            let q1 = if clock != 0 {
                QualityView { unsupported_clocks: ordered_insert(st.quality.unsupported_clocks, clock), ..st.quality }
            } else {
                st.quality
            };
            let q2 = if spec_number(f, 3) == Some(1u64) {
                QualityView { lost_bundles: bump(q1.lost_bundles, 1), ..q1 }
            } else {
                q1
            };
            let q3 = QualityView { parse_errors: bump(q2.parse_errors, spec_children(f, 8).len()), ..q2 };
            events_from(TraceView { quality: q3, ..st }, d, spec_children(f, 2), 0, cpu, clock)
        },
    }
}

/// How a run over repeated messages ended.
pub enum Flow {
    Continue,
    Stop,
    Fail(DecodeError),
}

/// Process (`is_thread == false`) or thread rows `list[i..]` of a process tree `d`.
pub open spec fn procs_from(st: TraceView, d: Seq<u8>, list: Seq<(usize, usize)>, i: nat, is_thread: bool, snapshot: Option<u64>) -> (TraceView, Flow)
    decreases list.len() - i,
{
    if i >= list.len() {
        (st, Flow::Continue)
    } else if st.processes.len() >= MAX_METADATA {
        (mark_limited(st), Flow::Stop)
    } else {
        let raw = d.subrange(list[i as int].0 as int, list[i as int].1 as int);
        match spec_fields(raw) {
            Err(x) => (st, Flow::Fail(x)),
            Ok(p) => match required_number(p, if is_thread { 3 } else { 1 }) {
                Err(x) => (st, Flow::Fail(x)),
                Ok(pid) => if pid > u32::MAX {
                    (st, Flow::Fail(DecodeError::OutOfRange))
                } else {
                    let row = ProcessView {
                        snapshot_ns: snapshot,
                        pid: pid as u32,
                        tid: if is_thread { narrow_u32(spec_number(p, 1)) } else { None },
                        name: match spec_text(p, if is_thread { 2 } else { 3 }, raw) {
                            Some(t) => t,
                            None => seq![],
                        },
                        start_from_boot_ns: if is_thread { None } else { spec_number(p, 7) },
                    };
                    procs_from(TraceView { processes: st.processes.push(row), ..st }, d, list, i + 1, is_thread, snapshot)
                },
            },
        }
    }
}

/// A process-tree snapshot: processes, then threads; reaching the metadata
/// limit stops the tree without an error.
pub open spec fn process_tree_step(st: TraceView, d: Seq<u8>, snapshot: Option<u64>) -> (TraceView, Option<DecodeError>) {
    match spec_fields(d) {
        Err(x) => (st, Some(x)),
        Ok(f) => {
            let (st1, r1) = procs_from(st, d, spec_children(f, 1), 0, false, snapshot);
            match r1 {
                Flow::Fail(x) => (st1, Some(x)),
                Flow::Stop => (st1, None),
                Flow::Continue => {
                    let (st2, r2) = procs_from(st1, d, spec_children(f, 2), 0, true, snapshot);
                    match r2 {
                        Flow::Fail(x) => (st2, Some(x)),
                        _ => (st2, None),
                    }
                },
            }
        },
    }
}

/// Event names `list[i..]`, each at most 4096 bytes, added to a name set.
pub open spec fn names_from(names: Seq<Seq<char>>, d: Seq<u8>, list: Seq<(usize, usize)>, i: nat) -> Seq<Seq<char>>
    decreases list.len() - i,
{
    if i >= list.len() {
        names
    } else {
        let (a, b) = list[i as int];
        let name = utf8_lossy(d.subrange(a as int, if b - a > MAX_TEXT { a + MAX_TEXT } else { b as int }));
        names_from(text_set_insert(names, name), d, list, i + 1)
    }
}

/// Per-CPU counter rows `list[i..]` of an ftrace-stats message for `phase`:
/// the first start snapshot of a CPU is kept, the last end snapshot wins.
pub open spec fn cpu_stats_from(q: QualityView, d: Seq<u8>, list: Seq<(usize, usize)>, i: nat, phase: Option<u64>) -> (QualityView, Option<DecodeError>)
    decreases list.len() - i,
{
    if i >= list.len() {
        (q, None)
    } else {
        match spec_fields(d.subrange(list[i as int].0 as int, list[i as int].1 as int)) {
            Err(x) => (q, Some(x)),
            Ok(c) => match required_number(c, 1) {
                Err(x) => (q, Some(x)),
                Ok(cpu) => {
                    let counters = CpuCounters {
                        overrun: spec_number(c, 3),
                        commit_overrun: spec_number(c, 4),
                        dropped_events: spec_number(c, 8),
                    };
                    let q1 = if phase == Some(1u64) {
                        QualityView { kernel_start: ordered_put(q.kernel_start, cpu, counters, false), ..q }
                    } else {
                        q
                    };
                    let q2 = if phase == Some(2u64) {
                        QualityView { kernel_end: ordered_put(q1.kernel_end, cpu, counters, true), ..q1 }
                    } else {
                        q1
                    };
                    cpu_stats_from(q2, d, list, i + 1, phase)
                },
            },
        }
    }
}

/// Ftrace statistics: start/end phase, unknown and failed events, setup
/// errors and per-CPU loss counters.
pub open spec fn ftrace_stats_step(st: TraceView, d: Seq<u8>) -> (TraceView, Option<DecodeError>) {
    match spec_fields(d) {
        Err(x) => (st, Some(x)),
        Ok(f) => {
            let phase = spec_number(f, 1);
            let q0 = st.quality;
            let q1 = QualityView {
                ftrace_start_seen: q0.ftrace_start_seen || phase == Some(1u64),
                ftrace_end_seen: q0.ftrace_end_seen || phase == Some(2u64),
                ..q0
            };
            let q2 = QualityView { unknown_events: names_from(q1.unknown_events, d, spec_children(f, 6), 0), ..q1 };
            let q3 = QualityView { failed_events: names_from(q2.failed_events, d, spec_children(f, 7), 0), ..q2 };
            let q4 = QualityView { parse_errors: bump(q3.parse_errors, count_id(f, 9)), ..q3 };
            let (q5, r) = cpu_stats_from(q4, d, spec_children(f, 2), 0, phase);
            (TraceView { quality: q5, ..st }, r)
        },
    }
}

/// Service-level loss counters, by field id.
pub open spec fn service_counter(k: nat) -> (u32, Seq<char>) {
    if k == 0 { (8, "chunks_discarded"@) }
    else if k == 1 { (9, "patches_discarded"@) }
    else if k == 2 { (10, "invalid_packets"@) }
    else { (14, "flushes_failed"@) }
}

/// Per-buffer loss counters, by field id.
pub open spec fn buffer_counter(k: nat) -> (u32, Seq<char>) {
    if k == 0 { (13, "bytes_overwritten"@) }
    else if k == 1 { (3, "chunks_overwritten"@) }
    else if k == 2 { (18, "chunks_discarded"@) }
    else if k == 3 { (6, "patches_failed"@) }
    else if k == 4 { (9, "abi_violations"@) }
    else { (19, "trace_writer_packet_loss"@) }
}

pub open spec fn service_counters_from(m: Seq<(Seq<char>, u64)>, f: Seq<Field>, k: nat) -> Seq<(Seq<char>, u64)>
    decreases 4 - k,
{
    if k >= 4 {
        m
    } else {
        let (id, name) = service_counter(k);
        let m1 = match spec_number(f, id) {
            Some(v) => text_map_put(m, name, v),
            None => m,
        };
        service_counters_from(m1, f, k + 1)
    }
}

/// The counter name used for buffer `idx`.
pub open spec fn buffer_key(idx: nat, name: Seq<char>) -> Seq<char> {
    "buffer_"@ + decimal(idx) + "_"@ + name
}

pub open spec fn buffer_counters_from(m: Seq<(Seq<char>, u64)>, b: Seq<Field>, idx: nat, k: nat) -> Seq<(Seq<char>, u64)>
    decreases 6 - k,
{
    if k >= 6 {
        m
    } else {
        let (id, name) = buffer_counter(k);
        let m1 = match spec_number(b, id) {
            Some(v) => text_map_put(m, buffer_key(idx, name), v),
            None => m,
        };
        buffer_counters_from(m1, b, idx, k + 1)
    }
}

/// Buffer statistics `list[i..]`; `i` is also the buffer's index.
pub open spec fn buffers_from(m: Seq<(Seq<char>, u64)>, d: Seq<u8>, list: Seq<(usize, usize)>, i: nat) -> (Seq<(Seq<char>, u64)>, Option<DecodeError>)
    decreases list.len() - i,
{
    if i >= list.len() {
        (m, None)
    } else {
        match spec_fields(d.subrange(list[i as int].0 as int, list[i as int].1 as int)) {
            Err(x) => (m, Some(x)),
            Ok(b) => buffers_from(buffer_counters_from(m, b, i, 0), d, list, i + 1),
        }
    }
}

/// Tracing-service statistics: final flush outcome and loss counters.
pub open spec fn service_stats_step(st: TraceView, d: Seq<u8>) -> (TraceView, Option<DecodeError>) {
    match spec_fields(d) {
        Err(x) => (st, Some(x)),
        Ok(f) => {
            let q0 = st.quality;
            let q1 = QualityView {
                service_stats_seen: true,
                final_flush_outcome: match spec_number(f, 15) {
                    Some(v) => Some(v),
                    None => q0.final_flush_outcome,
                },
                service_loss_counters: service_counters_from(q0.service_loss_counters, f, 0),
                ..q0
            };
            let (m, r) = buffers_from(q1.service_loss_counters, d, spec_children(f, 1), 0);
            (TraceView { quality: QualityView { service_loss_counters: m, ..q1 }, ..st }, r)
        },
    }
}

/// The four repeated sub-messages of a packet that the decoder reads.
pub open spec fn submessage_step(st: TraceView, p: Seq<u8>, which: nat, d: Seq<u8>, snapshot: Option<u64>) -> (TraceView, Option<DecodeError>) {
    if which == 0 {
        bundle_step(st, d)
    } else if which == 1 {
        process_tree_step(st, d, snapshot)
    } else if which == 2 {
        ftrace_stats_step(st, d)
    } else {
        service_stats_step(st, d)
    }
}

pub open spec fn submessages_from(st: TraceView, p: Seq<u8>, which: nat, list: Seq<(usize, usize)>, i: nat, snapshot: Option<u64>) -> (TraceView, Option<DecodeError>)
    decreases list.len() - i,
{
    if i >= list.len() {
        (st, None)
    } else {
        let (st1, r) = submessage_step(st, p, which, p.subrange(list[i as int].0 as int, list[i as int].1 as int), snapshot);
        match r {
            Some(x) => (st1, Some(x)),
            None => submessages_from(st1, p, which, list, i + 1, snapshot),
        }
    }
}

/// Packet field ids of the sub-messages, in processing order.
pub open spec fn submessage_id(which: nat) -> u32 {
    if which == 0 { 1 } else if which == 1 { 2 } else if which == 2 { 34 } else { 35 }
}

pub open spec fn packet_parts_from(st: TraceView, p: Seq<u8>, f: Seq<Field>, which: nat) -> (TraceView, Option<DecodeError>)
    decreases 4 - which,
{
    if which >= 4 {
        (st, None)
    } else {
        let (st1, r) = submessages_from(st, p, which, spec_children(f, submessage_id(which)), 0, spec_number(f, 8));
        match r {
            Some(x) => (st1, Some(x)),
            None => packet_parts_from(st1, p, f, which + 1),
        }
    }
}

pub open spec fn compressed_message() -> Seq<char> {
    "Compressed packets require decompression; raw trace retained"@
}

/// One trace packet: bundles, process trees, ftrace stats, service stats,
/// then the compressed-packet check.
pub open spec fn packet_step(st: TraceView, p: Seq<u8>) -> (TraceView, Option<DecodeError>) {
    match spec_fields(p) {
        Err(x) => (st, Some(x)),
        Ok(f) => {
            let (st1, r) = packet_parts_from(st, p, f, 0);
            match r {
                Some(x) => (st1, Some(x)),
                None => if spec_bytes(f, 50) is Some {
                    let q = QualityView { parse_errors: bump(st1.quality.parse_errors, 1), ..st1.quality };
                    (TraceView { quality: add_diagnostic(q, compressed_message()), ..st1 }, None)
                } else {
                    (st1, None)
                },
            }
        },
    }
}

/// Marks the trace truncated with the reason; decoding stops there.
pub open spec fn truncate_with(st: TraceView, e: DecodeError) -> TraceView {
    TraceView { quality: add_diagnostic(QualityView { truncated: true, ..st.quality }, error_message(e)), ..st }
}

/// Root packets from `pos`. Each is tag byte 0x0a, a varint length of at most
/// 16 MiB and that many bytes. A damaged tail marks the trace truncated and
/// keeps everything decoded before it; a packet that fails inside counts as a
/// parse error and decoding continues with the next one.
pub open spec fn decode_from(st: TraceView, s: Seq<u8>, pos: nat) -> TraceView
    decreases s.len() - pos,
{
    if pos >= s.len() {
        st
    } else if s[pos as int] != 0x0a {
        truncate_with(st, DecodeError::UnsupportedRoot)
    } else {
        match spec_varint(s, pos + 1) {
            Err(x) => truncate_with(st, x),
            Ok((len, p)) => if len > usize::MAX {
                truncate_with(st, DecodeError::OutOfRange)
            } else if len > MAX_PACKET {
                truncate_with(st, DecodeError::PacketTooLarge)
            } else if p + len > s.len() {
                truncate_with(st, DecodeError::Eof)
            } else {
                let counted = TraceView { quality: QualityView { packets: bump(st.quality.packets, 1), ..st.quality }, ..st };
                let (st1, r) = packet_step(counted, s.subrange(p as int, p + len));
                let st2 = match r {
                    Some(x) => TraceView {
                        quality: add_diagnostic(QualityView { parse_errors: bump(st1.quality.parse_errors, 1), ..st1.quality }, error_message(x)),
                        ..st1
                    },
                    None => st1,
                };
                proof { lemma_varint_progress(s, pos + 1); }
                decode_from(st2, s, (p + len) as nat)
            },
        }
    }
}

/// `b` keeps every event and process row of `a`, in place.
pub open spec fn keeps(a: TraceView, b: TraceView) -> bool {
    &&& a.events.len() <= b.events.len()
    &&& b.events.subrange(0, a.events.len() as int) == a.events
    &&& a.processes.len() <= b.processes.len()
    &&& b.processes.subrange(0, a.processes.len() as int) == a.processes
}

proof fn lemma_keeps_refl(a: TraceView)
    ensures
        keeps(a, a),
{
    assert(a.events.subrange(0, a.events.len() as int) =~= a.events);
    assert(a.processes.subrange(0, a.processes.len() as int) =~= a.processes);
}

proof fn lemma_keeps_trans(a: TraceView, b: TraceView, c: TraceView)
    requires
        keeps(a, b),
        keeps(b, c),
    ensures
        keeps(a, c),
{
    assert(c.events.subrange(0, a.events.len() as int) =~= b.events.subrange(0, a.events.len() as int));
    assert(c.processes.subrange(0, a.processes.len() as int) =~= b.processes.subrange(0, a.processes.len() as int));
}

proof fn lemma_keeps_push_event(a: TraceView, e: EventView)
    ensures
        keeps(a, TraceView { events: a.events.push(e), ..a }),
{
    assert(a.events.push(e).subrange(0, a.events.len() as int) =~= a.events);
    lemma_keeps_refl(a);
}

proof fn lemma_keeps_push_process(a: TraceView, p: ProcessView)
    ensures
        keeps(a, TraceView { processes: a.processes.push(p), ..a }),
{
    assert(a.processes.push(p).subrange(0, a.processes.len() as int) =~= a.processes);
    lemma_keeps_refl(a);
}

/// Within a packet: `b` keeps what `a` decoded and leaves the packet count
/// and the truncation flag alone.
pub open spec fn packet_keeps(a: TraceView, b: TraceView) -> bool {
    &&& keeps(a, b)
    &&& b.quality.truncated == a.quality.truncated
    &&& b.quality.packets == a.quality.packets
    &&& numbered(a.events) ==> numbered(b.events)
    &&& a.quality.diagnostics.len() <= MAX_DIAGNOSTICS ==> b.quality.diagnostics.len() <= MAX_DIAGNOSTICS
    &&& quality_in_order(a.quality) ==> quality_in_order(b.quality)
}

/// The event-name sets and the loss counters in strictly ascending order,
/// as the `BTreeSet` and `BTreeMap` of the quality record hold them.
pub open spec fn quality_in_order(q: QualityView) -> bool {
    &&& texts_ascending(q.unknown_events)
    &&& texts_ascending(q.failed_events)
    &&& keys_ascending(q.service_loss_counters)
}

proof fn lemma_names_in_order(names: Seq<Seq<char>>, d: Seq<u8>, list: Seq<(usize, usize)>, i: nat)
    requires
        texts_ascending(names),
    ensures
        texts_ascending(names_from(names, d, list, i)),
    decreases list.len() - i,
{
    if i < list.len() {
        let (a, b) = list[i as int];
        let name = utf8_lossy(d.subrange(a as int, if b - a > MAX_TEXT { a + MAX_TEXT } else { b as int }));
        lemma_set_insert_ascending(names, name);
        lemma_names_in_order(text_set_insert(names, name), d, list, i + 1);
    }
}

proof fn lemma_service_counters_in_order(m: Seq<(Seq<char>, u64)>, f: Seq<Field>, k: nat)
    requires
        keys_ascending(m),
    ensures
        keys_ascending(service_counters_from(m, f, k)),
    decreases 4 - k,
{
    if k < 4 {
        let (id, name) = service_counter(k);
        if let Some(v) = spec_number(f, id) {
            lemma_put_ascending(m, name, v);
            lemma_service_counters_in_order(text_map_put(m, name, v), f, k + 1);
        } else {
            lemma_service_counters_in_order(m, f, k + 1);
        }
    }
}

proof fn lemma_buffer_counters_in_order(m: Seq<(Seq<char>, u64)>, b: Seq<Field>, idx: nat, k: nat)
    requires
        keys_ascending(m),
    ensures
        keys_ascending(buffer_counters_from(m, b, idx, k)),
    decreases 6 - k,
{
    if k < 6 {
        let (id, name) = buffer_counter(k);
        if let Some(v) = spec_number(b, id) {
            lemma_put_ascending(m, buffer_key(idx, name), v);
            lemma_buffer_counters_in_order(text_map_put(m, buffer_key(idx, name), v), b, idx, k + 1);
        } else {
            lemma_buffer_counters_in_order(m, b, idx, k + 1);
        }
    }
}

proof fn lemma_buffers_in_order(m: Seq<(Seq<char>, u64)>, d: Seq<u8>, list: Seq<(usize, usize)>, i: nat)
    requires
        keys_ascending(m),
    ensures
        keys_ascending(buffers_from(m, d, list, i).0),
    decreases list.len() - i,
{
    if i < list.len() {
        if let Ok(b) = spec_fields(d.subrange(list[i as int].0 as int, list[i as int].1 as int)) {
            lemma_buffer_counters_in_order(m, b, i, 0);
            lemma_buffers_in_order(buffer_counters_from(m, b, i, 0), d, list, i + 1);
        }
    }
}

/// Every event carries its position in file order, counted from 1.
pub open spec fn numbered(events: Seq<EventView>) -> bool {
    forall|i: int| 0 <= i < events.len() ==> (#[trigger] events[i]).record_id == i + 1
}

proof fn lemma_pkeeps_refl(a: TraceView)
    ensures
        packet_keeps(a, a),
{
    lemma_keeps_refl(a);
}

proof fn lemma_pkeeps_trans(a: TraceView, b: TraceView, c: TraceView)
    requires
        packet_keeps(a, b),
        packet_keeps(b, c),
    ensures
        packet_keeps(a, c),
{
    lemma_keeps_trans(a, b, c);
}

proof fn lemma_pkeeps_push_event(a: TraceView, e: EventView)
    requires
        e.record_id == a.events.len() + 1,
    ensures
        packet_keeps(a, TraceView { events: a.events.push(e), ..a }),
{
    lemma_keeps_push_event(a, e);
    let n = a.events.push(e);
    if numbered(a.events) {
        assert forall|i: int| 0 <= i < n.len() implies (#[trigger] n[i]).record_id == i + 1 by {
            if i < a.events.len() {
                assert(n[i] == a.events[i]);
            }
        }
    }
}

proof fn lemma_pkeeps_push_process(a: TraceView, p: ProcessView)
    ensures
        packet_keeps(a, TraceView { processes: a.processes.push(p), ..a }),
{
    lemma_keeps_push_process(a, p);
}

proof fn lemma_cpu_stats_flags(q: QualityView, d: Seq<u8>, list: Seq<(usize, usize)>, i: nat, phase: Option<u64>)
    ensures
        cpu_stats_from(q, d, list, i, phase).0.truncated == q.truncated,
        cpu_stats_from(q, d, list, i, phase).0.packets == q.packets,
        cpu_stats_from(q, d, list, i, phase).0.diagnostics == q.diagnostics,
        cpu_stats_from(q, d, list, i, phase).0.unknown_events == q.unknown_events,
        cpu_stats_from(q, d, list, i, phase).0.failed_events == q.failed_events,
        cpu_stats_from(q, d, list, i, phase).0.service_loss_counters == q.service_loss_counters,
    decreases list.len() - i,
{
    if i < list.len() {
        if let Ok(c) = spec_fields(d.subrange(list[i as int].0 as int, list[i as int].1 as int)) {
            if let Ok(cpu) = required_number(c, 1) {
                let counters = CpuCounters {
                    overrun: spec_number(c, 3),
                    commit_overrun: spec_number(c, 4),
                    dropped_events: spec_number(c, 8),
                };
                let q1 = if phase == Some(1u64) {
                    QualityView { kernel_start: ordered_put(q.kernel_start, cpu, counters, false), ..q }
                } else {
                    q
                };
                let q2 = if phase == Some(2u64) {
                    QualityView { kernel_end: ordered_put(q1.kernel_end, cpu, counters, true), ..q1 }
                } else {
                    q1
                };
                lemma_cpu_stats_flags(q2, d, list, i + 1, phase);
            }
        }
    }
}

proof fn lemma_kinds_keep(st: TraceView, ev: Seq<u8>, e: Seq<Field>, k: nat, cpu: Option<u32>, clock: u32)
    ensures
        packet_keeps(st, kinds_from(st, ev, e, k, cpu, clock).0),
    decreases 4 - k,
{
    lemma_pkeeps_refl(st);
    if k < 4 {
        match spec_bytes(e, kind_id(k)) {
            None => lemma_kinds_keep(st, ev, e, k + 1, cpu, clock),
            Some((a, b)) => if st.events.len() >= MAX_EVENTS {
                lemma_kinds_keep(mark_limited(st), ev, e, k + 1, cpu, clock);
                lemma_pkeeps_refl(mark_limited(st));
                lemma_pkeeps_trans(st, mark_limited(st), kinds_from(mark_limited(st), ev, e, k + 1, cpu, clock).0);
            } else {
                let payload = ev.subrange(a as int, b as int);
                if let Ok(bf) = spec_fields(payload) {
                    if let Ok(event) = spec_block_event(st.events.len(), kind_of(k), e, bf, payload, cpu, clock) {
                        let st1 = TraceView { events: st.events.push(event), ..st };
                        lemma_pkeeps_push_event(st, event);
                        lemma_kinds_keep(st1, ev, e, k + 1, cpu, clock);
                        lemma_pkeeps_trans(st, st1, kinds_from(st1, ev, e, k + 1, cpu, clock).0);
                    }
                }
            },
        }
    }
}

proof fn lemma_events_keep(st: TraceView, d: Seq<u8>, list: Seq<(usize, usize)>, i: nat, cpu: Option<u32>, clock: u32)
    ensures
        packet_keeps(st, events_from(st, d, list, i, cpu, clock).0),
    decreases list.len() - i,
{
    lemma_pkeeps_refl(st);
    if i < list.len() {
        let ev = d.subrange(list[i as int].0 as int, list[i as int].1 as int);
        if let Ok(e) = spec_fields(ev) {
            let (st1, r) = kinds_from(st, ev, e, 0, cpu, clock);
            lemma_kinds_keep(st, ev, e, 0, cpu, clock);
            if r is None {
                lemma_events_keep(st1, d, list, i + 1, cpu, clock);
                lemma_pkeeps_trans(st, st1, events_from(st1, d, list, i + 1, cpu, clock).0);
            }
        }
    }
}

proof fn lemma_procs_keep(st: TraceView, d: Seq<u8>, list: Seq<(usize, usize)>, i: nat, is_thread: bool, snapshot: Option<u64>)
    ensures
        packet_keeps(st, procs_from(st, d, list, i, is_thread, snapshot).0),
    decreases list.len() - i,
{
    lemma_pkeeps_refl(st);
    lemma_pkeeps_refl(mark_limited(st));
    if i < list.len() && st.processes.len() < MAX_METADATA {
        let raw = d.subrange(list[i as int].0 as int, list[i as int].1 as int);
        if let Ok(p) = spec_fields(raw) {
            if let Ok(pid) = required_number(p, if is_thread { 3 } else { 1 }) {
                if pid <= u32::MAX {
                    let row = ProcessView {
                        snapshot_ns: snapshot,
                        pid: pid as u32,
                        tid: if is_thread { narrow_u32(spec_number(p, 1)) } else { None },
                        name: match spec_text(p, if is_thread { 2 } else { 3 }, raw) {
                            Some(t) => t,
                            None => seq![],
                        },
                        start_from_boot_ns: if is_thread { None } else { spec_number(p, 7) },
                    };
                    let st1 = TraceView { processes: st.processes.push(row), ..st };
                    lemma_pkeeps_push_process(st, row);
                    lemma_procs_keep(st1, d, list, i + 1, is_thread, snapshot);
                    lemma_pkeeps_trans(st, st1, procs_from(st1, d, list, i + 1, is_thread, snapshot).0);
                }
            }
        }
    }
}

/// Every row decoded from a process-tree list names its own entry's
/// process: a process row carries the entry's pid (field 1) and no thread
/// id; a thread row carries the entry's owning process, its tgid (field 3),
/// as pid and its own id (field 1) as tid, so a thread whose tgid differs
/// from its id is never reported as a process of its own. Each row also
/// keeps the snapshot time, the entry's name (field 2 of a thread, field 3
/// of a process) and, for a process, its start time (field 7). Rows come
/// one per entry, in list order, after the rows already decoded.
pub proof fn law_process_rows_name_their_process(st: TraceView, d: Seq<u8>, list: Seq<(usize, usize)>, i: nat, is_thread: bool, snapshot: Option<u64>)
    requires
        i <= list.len(),
    ensures ({
        let r = procs_from(st, d, list, i, is_thread, snapshot).0;
        let base = st.processes.len() as int;
        &&& base <= r.processes.len() <= base + (list.len() - i)
        &&& r.processes.subrange(0, base) == st.processes
        &&& forall|k: int| base <= k < r.processes.len() ==> {
            let idx = i + k - base;
            spec_fields(d.subrange(list[idx].0 as int, list[idx].1 as int)) matches Ok(p) && {
                &&& is_thread ==> spec_number(p, 3) == Some((#[trigger] r.processes[k]).pid as u64)
                    && r.processes[k].tid == narrow_u32(spec_number(p, 1))
                &&& !is_thread ==> spec_number(p, 1) == Some(r.processes[k].pid as u64) && r.processes[k].tid is None
                &&& r.processes[k].snapshot_ns == snapshot
                &&& r.processes[k].name == match spec_text(p, if is_thread { 2 } else { 3 }, d.subrange(list[idx].0 as int, list[idx].1 as int)) {
                    Some(t) => t,
                    None => seq![],
                }
                &&& r.processes[k].start_from_boot_ns == (if is_thread { None } else { spec_number(p, 7) })
            }
        }
    }),
    decreases list.len() - i,
{
    lemma_procs_keep(st, d, list, i, is_thread, snapshot);
    let r = procs_from(st, d, list, i, is_thread, snapshot).0;
    let base = st.processes.len() as int;
    if i < list.len() && st.processes.len() < MAX_METADATA {
        let raw = d.subrange(list[i as int].0 as int, list[i as int].1 as int);
        if let Ok(p) = spec_fields(raw) {
            if let Ok(pid) = required_number(p, (if is_thread { 3 } else { 1 })) {
                if pid <= u32::MAX {
                    let row = ProcessView {
                        snapshot_ns: snapshot,
                        pid: pid as u32,
                        tid: if is_thread { narrow_u32(spec_number(p, 1)) } else { None },
                        name: match spec_text(p, if is_thread { 2 } else { 3 }, raw) {
                            Some(t) => t,
                            None => seq![],
                        },
                        start_from_boot_ns: if is_thread { None } else { spec_number(p, 7) },
                    };
                    let st1 = TraceView { processes: st.processes.push(row), ..st };
                    law_process_rows_name_their_process(st1, d, list, i + 1, is_thread, snapshot);
                    assert(r == procs_from(st1, d, list, i + 1, is_thread, snapshot).0);
                    assert(r.processes.subrange(0, base + 1)[base] == r.processes[base]);
                    assert(r.processes[base] == row);
                    assert(r.processes.subrange(0, base) =~= st.processes) by {
                        assert forall|k: int| 0 <= k < base implies r.processes.subrange(0, base)[k] == st.processes[k] by {
                            assert(r.processes.subrange(0, base + 1)[k] == st1.processes[k]);
                        }
                    }
                }
            }
        }
    }
}

proof fn lemma_submessage_packet_keeps(st: TraceView, p: Seq<u8>, which: nat, d: Seq<u8>, snapshot: Option<u64>)
    ensures
        packet_keeps(st, submessage_step(st, p, which, d, snapshot).0),
{
    lemma_pkeeps_refl(st);
    if which == 0 {
        if let Ok(f) = spec_fields(d) {
            let cpu = narrow_u32(spec_number(f, 1));
            let clock = bundle_clock(f);
            let q1 = if clock != 0 {
                QualityView { unsupported_clocks: ordered_insert(st.quality.unsupported_clocks, clock), ..st.quality }
            } else {
                st.quality
            };
            let q2 = if spec_number(f, 3) == Some(1u64) {
                QualityView { lost_bundles: bump(q1.lost_bundles, 1), ..q1 }
            } else {
                q1
            };
            let q3 = QualityView { parse_errors: bump(q2.parse_errors, spec_children(f, 8).len()), ..q2 };
            let st0 = TraceView { quality: q3, ..st };
            lemma_pkeeps_refl(st0);
            lemma_events_keep(st0, d, spec_children(f, 2), 0, cpu, clock);
            lemma_pkeeps_trans(st, st0, events_from(st0, d, spec_children(f, 2), 0, cpu, clock).0);
        }
    } else if which == 1 {
        if let Ok(f) = spec_fields(d) {
            let (st1, r1) = procs_from(st, d, spec_children(f, 1), 0, false, snapshot);
            lemma_procs_keep(st, d, spec_children(f, 1), 0, false, snapshot);
            lemma_procs_keep(st1, d, spec_children(f, 2), 0, true, snapshot);
            lemma_pkeeps_trans(st, st1, procs_from(st1, d, spec_children(f, 2), 0, true, snapshot).0);
        }
    } else if which == 2 {
        if let Ok(f) = spec_fields(d) {
            let phase = spec_number(f, 1);
            let q0 = st.quality;
            let q1 = QualityView {
                ftrace_start_seen: q0.ftrace_start_seen || phase == Some(1u64),
                ftrace_end_seen: q0.ftrace_end_seen || phase == Some(2u64),
                ..q0
            };
            let q2 = QualityView { unknown_events: names_from(q1.unknown_events, d, spec_children(f, 6), 0), ..q1 };
            let q3 = QualityView { failed_events: names_from(q2.failed_events, d, spec_children(f, 7), 0), ..q2 };
            let q4 = QualityView { parse_errors: bump(q3.parse_errors, count_id(f, 9)), ..q3 };
            let (q5, r) = cpu_stats_from(q4, d, spec_children(f, 2), 0, phase);
            lemma_cpu_stats_flags(q4, d, spec_children(f, 2), 0, phase);
            if quality_in_order(st.quality) {
                lemma_names_in_order(q1.unknown_events, d, spec_children(f, 6), 0);
                lemma_names_in_order(q2.failed_events, d, spec_children(f, 7), 0);
            }
        }
    } else {
        if let Ok(f) = spec_fields(d) {
            let q0 = st.quality;
            let q1 = QualityView {
                service_stats_seen: true,
                final_flush_outcome: match spec_number(f, 15) {
                    Some(v) => Some(v),
                    None => q0.final_flush_outcome,
                },
                service_loss_counters: service_counters_from(q0.service_loss_counters, f, 0),
                ..q0
            };
            let (m, r) = buffers_from(q1.service_loss_counters, d, spec_children(f, 1), 0);
            lemma_pkeeps_refl(TraceView { quality: QualityView { service_loss_counters: m, ..q1 }, ..st });
            if quality_in_order(st.quality) {
                lemma_service_counters_in_order(q0.service_loss_counters, f, 0);
                lemma_buffers_in_order(q1.service_loss_counters, d, spec_children(f, 1), 0);
            }
        }
    }
}

proof fn lemma_submessages_keep(st: TraceView, p: Seq<u8>, which: nat, list: Seq<(usize, usize)>, i: nat, snapshot: Option<u64>)
    ensures
        packet_keeps(st, submessages_from(st, p, which, list, i, snapshot).0),
    decreases list.len() - i,
{
    lemma_pkeeps_refl(st);
    if i < list.len() {
        let d = p.subrange(list[i as int].0 as int, list[i as int].1 as int);
        let (st1, r) = submessage_step(st, p, which, d, snapshot);
        lemma_submessage_packet_keeps(st, p, which, d, snapshot);
        if r is None {
            lemma_submessages_keep(st1, p, which, list, i + 1, snapshot);
            lemma_pkeeps_trans(st, st1, submessages_from(st1, p, which, list, i + 1, snapshot).0);
        }
    }
}

proof fn lemma_parts_keep(st: TraceView, p: Seq<u8>, f: Seq<Field>, which: nat)
    ensures
        packet_keeps(st, packet_parts_from(st, p, f, which).0),
    decreases 4 - which,
{
    lemma_pkeeps_refl(st);
    if which < 4 {
        let list = spec_children(f, submessage_id(which));
        let (st1, r) = submessages_from(st, p, which, list, 0, spec_number(f, 8));
        lemma_submessages_keep(st, p, which, list, 0, spec_number(f, 8));
        if r is None {
            lemma_parts_keep(st1, p, f, which + 1);
            lemma_pkeeps_trans(st, st1, packet_parts_from(st1, p, f, which + 1).0);
        }
    }
}

/// Decoding only ever appends: whatever follows, from a damaged packet to a
/// damaged tail, every event and process row decoded before it stays, in
/// place.
pub proof fn law_decoding_never_erases(st: TraceView, s: Seq<u8>, pos: nat)
    ensures
        keeps(st, decode_from(st, s, pos)),
    decreases s.len() - pos,
{
    lemma_keeps_refl(st);
    if pos < s.len() && s[pos as int] == 0x0a {
        if let Ok((len, p)) = spec_varint(s, pos + 1) {
            if len <= usize::MAX && len <= MAX_PACKET && p + len <= s.len() {
                let counted = TraceView { quality: QualityView { packets: bump(st.quality.packets, 1), ..st.quality }, ..st };
                let pkt = s.subrange(p as int, p + len);
                let (st1, r) = packet_step(counted, pkt);
                lemma_keeps_refl(counted);
                if let Ok(f) = spec_fields(pkt) {
                    lemma_parts_keep(counted, pkt, f, 0);
                    let st0 = packet_parts_from(counted, pkt, f, 0).0;
                    lemma_keeps_refl(st0);
                    lemma_keeps_trans(counted, st0, st1);
                }
                let st2 = match r {
                    Some(x) => TraceView {
                        quality: add_diagnostic(QualityView { parse_errors: bump(st1.quality.parse_errors, 1), ..st1.quality }, error_message(x)),
                        ..st1
                    },
                    None => st1,
                };
                lemma_keeps_refl(st1);
                lemma_keeps_trans(counted, st1, st2);
                lemma_varint_progress(s, pos + 1);
                law_decoding_never_erases(st2, s, (p + len) as nat);
                lemma_keeps_trans(counted, st2, decode_from(st2, s, (p + len) as nat));
            }
        }
    }
}

/// `s` from `pos` on is a run of whole root packets: each the tag byte
/// 0x0a, a varint length of at most 16 MiB, then that many bytes.
pub open spec fn whole_packets(s: Seq<u8>, pos: nat) -> bool
    decreases s.len() - pos,
{
    if pos >= s.len() {
        true
    } else if s[pos as int] != 0x0a {
        false
    } else {
        match spec_varint(s, pos + 1) {
            Err(_) => false,
            Ok((len, p)) => if len > usize::MAX || len > MAX_PACKET || p + len > s.len() {
                false
            } else {
                proof { lemma_varint_progress(s, pos + 1); }
                whole_packets(s, (p + len) as nat)
            },
        }
    }
}

proof fn lemma_packet_step_keeps(st: TraceView, pkt: Seq<u8>)
    ensures
        packet_keeps(st, packet_step(st, pkt).0),
{
    lemma_pkeeps_refl(st);
    if let Ok(f) = spec_fields(pkt) {
        lemma_parts_keep(st, pkt, f, 0);
        let st1 = packet_parts_from(st, pkt, f, 0).0;
        lemma_pkeeps_refl(st1);
        lemma_keeps_refl(st1);
        lemma_keeps_trans(st, st1, packet_step(st, pkt).0);
    }
}

/// Decoding ends truncated exactly when it started truncated or the bytes
/// from `pos` are not whole packets, and never counts fewer packets.
proof fn lemma_decode_flags(st: TraceView, s: Seq<u8>, pos: nat)
    ensures
        decode_from(st, s, pos).quality.truncated == (st.quality.truncated || !whole_packets(s, pos)),
        decode_from(st, s, pos).quality.packets >= st.quality.packets,
    decreases s.len() - pos,
{
    if pos < s.len() && s[pos as int] == 0x0a {
        if let Ok((len, p)) = spec_varint(s, pos + 1) {
            if len <= usize::MAX && len <= MAX_PACKET && p + len <= s.len() {
                let counted = TraceView { quality: QualityView { packets: bump(st.quality.packets, 1), ..st.quality }, ..st };
                let pkt = s.subrange(p as int, p + len);
                let (st1, r) = packet_step(counted, pkt);
                lemma_packet_step_keeps(counted, pkt);
                let st2 = match r {
                    Some(x) => TraceView {
                        quality: add_diagnostic(QualityView { parse_errors: bump(st1.quality.parse_errors, 1), ..st1.quality }, error_message(x)),
                        ..st1
                    },
                    None => st1,
                };
                lemma_varint_progress(s, pos + 1);
                lemma_decode_flags(st2, s, (p + len) as nat);
            }
        }
    }
}

/// Decoding whole packets followed by anything passes through the whole
/// packets as decoding them alone does.
proof fn lemma_decode_concat(st: TraceView, p: Seq<u8>, t: Seq<u8>, pos: nat)
    requires
        whole_packets(p, pos),
        pos <= p.len(),
    ensures
        decode_from(st, p + t, pos) == decode_from(decode_from(st, p, pos), p + t, p.len()),
    decreases p.len() - pos,
{
    if pos < p.len() {
        let s = p + t;
        assert(s[pos as int] == p[pos as int]);
        lemma_varint_extend(p, t, pos + 1);
        lemma_varint_progress(p, pos + 1);
        let (len, q) = spec_varint(p, pos + 1)->Ok_0;
        assert(s.subrange(q as int, q + len) =~= p.subrange(q as int, q + len));
        let counted = TraceView { quality: QualityView { packets: bump(st.quality.packets, 1), ..st.quality }, ..st };
        let (st1, r) = packet_step(counted, p.subrange(q as int, q + len));
        let st2 = match r {
            Some(x) => TraceView {
                quality: add_diagnostic(QualityView { parse_errors: bump(st1.quality.parse_errors, 1), ..st1.quality }, error_message(x)),
                ..st1
            },
            None => st1,
        };
        assert(decode_from(st, s, pos) == decode_from(st2, s, (q + len) as nat));
        assert(decode_from(st, p, pos) == decode_from(st2, p, (q + len) as nat));
        lemma_decode_concat(st2, p, t, (q + len) as nat);
    }
}

/// Bytes in front of a run do not change whether it is whole packets.
proof fn lemma_whole_shift(a: Seq<u8>, t: Seq<u8>, q: nat)
    ensures
        whole_packets(a + t, a.len() + q) == whole_packets(t, q),
    decreases t.len() - q,
{
    if q < t.len() {
        assert((a + t)[(a.len() + q) as int] == t[q as int]);
        lemma_varint_shift(a, t, q + 1);
        assert(a.len() + q + 1 == a.len() + (q + 1));
        if let Ok((len, p)) = spec_varint(t, q + 1) {
            lemma_varint_progress(t, q + 1);
            if len <= usize::MAX && len <= MAX_PACKET && p + len <= t.len() {
                lemma_whole_shift(a, t, (p + len) as nat);
                assert(p + a.len() + len == a.len() + (p + len));
            }
        }
    }
}

/// Decoding keeps events numbered by file position and diagnostics within
/// their bound.
proof fn lemma_decode_numbered(st: TraceView, s: Seq<u8>, pos: nat)
    ensures
        numbered(st.events) ==> numbered(decode_from(st, s, pos).events),
        st.quality.diagnostics.len() <= MAX_DIAGNOSTICS ==> decode_from(st, s, pos).quality.diagnostics.len() <= MAX_DIAGNOSTICS,
        quality_in_order(st.quality) ==> quality_in_order(decode_from(st, s, pos).quality),
    decreases s.len() - pos,
{
    if pos < s.len() && s[pos as int] == 0x0a {
        if let Ok((len, p)) = spec_varint(s, pos + 1) {
            if len <= usize::MAX && len <= MAX_PACKET && p + len <= s.len() {
                let counted = TraceView { quality: QualityView { packets: bump(st.quality.packets, 1), ..st.quality }, ..st };
                let pkt = s.subrange(p as int, p + len);
                let (st1, r) = packet_step(counted, pkt);
                lemma_packet_step_keeps(counted, pkt);
                let st2 = match r {
                    Some(x) => TraceView {
                        quality: add_diagnostic(QualityView { parse_errors: bump(st1.quality.parse_errors, 1), ..st1.quality }, error_message(x)),
                        ..st1
                    },
                    None => st1,
                };
                lemma_varint_progress(s, pos + 1);
                lemma_decode_numbered(st2, s, (p + len) as nat);
            }
        }
    }
}

/// Decoded events carry their position in file order, counted from 1, so
/// record numbers are unique; at most the bounded number of diagnostics is
/// kept.
pub proof fn law_records_numbered_in_file_order(s: Seq<u8>)
    ensures
        numbered(decoded_in_file_order(s).events),
        decoded_in_file_order(s).quality.diagnostics.len() <= MAX_DIAGNOSTICS,
{
    lemma_decode_numbered(empty_trace(), s, 0);
}

/// The unknown and failed event names are each held once, and the loss
/// counters once per name, all in strictly ascending order.
pub proof fn law_quality_sets_in_order(s: Seq<u8>)
    ensures
        quality_in_order(decoded_in_file_order(s).quality),
{
    lemma_decode_numbered(empty_trace(), s, 0);
}

/// A trace is marked truncated exactly when its bytes are not whole root
/// packets.
pub proof fn law_truncated_iff_not_whole_packets(s: Seq<u8>)
    ensures
        decoded_in_file_order(s).quality.truncated <==> !whole_packets(s, 0),
{
    lemma_decode_flags(empty_trace(), s, 0);
}

/// Whole packets followed by a damaged tail: the whole packets alone decode
/// untruncated; with the tail the trace is marked truncated, yet keeps every
/// event and process row of the whole packets, in place, and counts at
/// least as many packets.
pub proof fn law_damaged_tail_keeps_prefix(p: Seq<u8>, t: Seq<u8>)
    requires
        whole_packets(p, 0),
        !whole_packets(t, 0),
    ensures
        !decoded_in_file_order(p).quality.truncated,
        decoded_in_file_order(p + t).quality.truncated,
        keeps(decoded_in_file_order(p), decoded_in_file_order(p + t)),
        decoded_in_file_order(p + t).quality.packets >= decoded_in_file_order(p).quality.packets,
{
    let st = empty_trace();
    lemma_decode_flags(st, p, 0);
    lemma_decode_concat(st, p, t, 0);
    let d = decode_from(st, p, 0);
    lemma_whole_shift(p, t, 0);
    assert(p.len() + 0 == p.len());
    lemma_decode_flags(d, p + t, p.len());
    law_decoding_never_erases(d, p + t, p.len());
}

/// Whole packets followed by a damaged tail, as `decode` returns them,
/// events sorted by time: the whole packets alone decode untruncated; with
/// the tail the trace is marked truncated, yet every event of the whole
/// packets is still there with the same record number and fields, the
/// process rows of the whole packets stay in place, and at least as many
/// packets are counted.
pub proof fn law_decode_damaged_tail_keeps_prefix(p: Seq<u8>, t: Seq<u8>, d: TraceView, d2: TraceView)
    requires
        whole_packets(p, 0),
        !whole_packets(t, 0),
        decode_result(p, d),
        decode_result(p + t, d2),
    ensures
        !d.quality.truncated,
        d2.quality.truncated,
        d.events.len() <= d2.events.len(),
        forall|i: int| 0 <= i < d.events.len() ==> #[trigger] d2.events.contains(d.events[i]),
        d.processes.len() <= d2.processes.len(),
        d2.processes.subrange(0, d.processes.len() as int) == d.processes,
        d2.quality.packets >= d.quality.packets,
{
    law_damaged_tail_keeps_prefix(p, t);
    let a = decoded_in_file_order(p);
    let b = decoded_in_file_order(p + t);
    let perm1 = choose|perm: Seq<int>| #[trigger] reorders(d.events, a.events, perm);
    let perm2 = choose|perm: Seq<int>| #[trigger] reorders(d2.events, b.events, perm);
    lemma_perm_onto(perm2, b.events.len());
    assert forall|i: int| 0 <= i < d.events.len() implies #[trigger] d2.events.contains(d.events[i]) by {
        let x = perm1[i];
        assert(d.events[i] == a.events[x]);
        assert(b.events.subrange(0, a.events.len() as int)[x] == b.events[x]);
        assert(perm2.contains(x));
        let j = choose|j: int| 0 <= j < perm2.len() && perm2[j] == x;
        assert(d2.events[j] == b.events[perm2[j]]);
    }
}

/// An index sequence of length `n` with distinct entries below `n` names
/// every position below `n`.
proof fn lemma_perm_onto(perm: Seq<int>, n: nat)
    requires
        perm.len() == n,
        forall|k: int| 0 <= k < perm.len() ==> 0 <= #[trigger] perm[k] < n,
        forall|k: int, l: int| 0 <= k < l < perm.len() ==> perm[k] != perm[l],
    ensures
        forall|x: int| 0 <= x < n ==> #[trigger] perm.contains(x),
{
    assert(perm.no_duplicates()) by {
        assert forall|i: int, j: int| 0 <= i < perm.len() && 0 <= j < perm.len() && i != j implies perm[i] != perm[j] by {
            if i > j {
                assert(perm[j] != perm[i]);
            }
        }
    }
    perm.unique_seq_to_set();
    vstd::seq_lib::seq_to_set_is_finite(perm);
    vstd::set_lib::lemma_int_range(0, n as int);
    let s = perm.to_set();
    let r = vstd::set_lib::set_int_range(0, n as int);
    assert(s.subset_of(r)) by {
        assert forall|x: int| s.contains(x) implies r.contains(x) by {
            let j = choose|j: int| 0 <= j < perm.len() && perm[j] == x;
        }
    }
    vstd::set_lib::lemma_subset_equality(s, r);
    assert forall|x: int| 0 <= x < n implies #[trigger] perm.contains(x) by {
        assert(r.contains(x));
        assert(s.contains(x));
    }
}

// ---------------------------------------------------------------------------
// Executable decoder.

/// Lossy text of the last length-delimited field `id`, at most 4096 bytes.
pub fn text(f: &Vec<Field>, id: u32, msg: &[u8]) -> (r: Option<String>)
    requires
        ranges_within(f@, msg@.len()),
    ensures
        opt_str(r) == spec_text(f@, id, msg@),
{
    proof { lemma_children_within(f@, id, msg@.len()); }
    match bytes(f, id) {
        None => None,
        Some((a, b)) => {
            let end = if b - a > MAX_TEXT { a + MAX_TEXT } else { b };
            Some(lossy_text(&msg[a..end]))
        }
    }
}

pub fn required(f: &Vec<Field>, id: u32) -> (r: Result<u64, DecodeError>)
    ensures
        r == required_number(f@, id),
{
    match number(f, id) {
        Some(v) => Ok(v),
        None => Err(DecodeError::MissingField(id)),
    }
}

fn narrow(v: Option<u64>) -> (r: Option<u32>)
    ensures
        r == narrow_u32(v),
{
    match v {
        Some(n) => if n <= u32::MAX as u64 { Some(n as u32) } else { None },
        None => None,
    }
}

fn block_event(
    n: usize,
    kind: BlockKind,
    e: &Vec<Field>,
    b: &Vec<Field>,
    payload: &[u8],
    cpu: Option<u32>,
    clock: u32,
) -> (r: Result<BlockEvent, DecodeError>)
    requires
        ranges_within(b@, payload@.len()),
        n < MAX_EVENTS,
    ensures
        match (r, spec_block_event(n as nat, kind, e@, b@, payload@, cpu, clock)) {
            (Ok(ev), Ok(sv)) => ev@ == sv,
            (Err(x), Err(sx)) => x == sx,
            _ => false,
        },
{
    let sec = required(b, 3)?;
    if sec > u32::MAX as u64 {
        return Err(DecodeError::OutOfRange);
    }
    let sectors = sec as u32;
    let ts = required(e, 1)?;
    let dev = required(b, 1)?;
    let sector = required(b, 2)?;
    let has_bytes = kind == BlockKind::Issue || kind == BlockKind::Insert;
    let byte_count = if has_bytes { required(b, 4)? } else { (sectors as u64) * 512 };
    let rwbs = match text(b, 5, payload) {
        Some(t) => t,
        None => return Err(DecodeError::MissingRwbs),
    };
    let comm = if has_bytes { text(b, 6, payload) } else { None };
    let error = if has_bytes {
        None
    } else {
        match number(b, 7) {
            Some(x) => Some(x as i32),
            None => match number(b, 4) {
                Some(x) => Some(x as i32),
                None => None,
            },
        }
    };
    Ok(BlockEvent {
        record_id: n as u64 + 1,
        kind,
        timestamp_ns: ts,
        cpu,
        tid: narrow(number(e, 2)),
        device_encoded: dev,
        sector,
        sectors,
        bytes: byte_count,
        rwbs,
        comm,
        error,
        clock,
    })
}

/// Adds `x` to a set kept in ascending order.
pub fn insert_u32(v: &mut Vec<u32>, x: u32)
    ensures
        final(v)@ == ordered_insert(old(v)@, x),
{
    let ghost o = v@;
    let mut i: usize = 0;
    proof { assert(o.take(0) + o.skip(0) =~= o); }
    while i < v.len()
        invariant
            i <= v@.len(),
            v@ == o,
            o == old(v)@,
            ordered_insert(o, x) == o.take(i as int) + ordered_insert(o.skip(i as int), x),
        decreases v@.len() - i,
    {
        let y = v[i];
        proof {
            assert(o.skip(i as int)[0] == y);
            assert(o.skip(i as int).skip(1) =~= o.skip(i + 1));
            assert(o.take(i + 1) =~= o.take(i as int) + seq![y]);
        }
        if y == x {
            assert(o.take(i as int) + o.skip(i as int) =~= o);
            return;
        }
        if x < y {
            v.insert(i, x);
            assert(v@ =~= o.take(i as int) + (seq![x] + o.skip(i as int)));
            return;
        }
        i += 1;
    }
    v.push(x);
    assert(o.skip(o.len() as int) =~= Seq::<u32>::empty());
    assert(o.take(o.len() as int) =~= o);
    assert(v@ =~= o.take(o.len() as int) + seq![x]);
}

/// Finds the last entry with key `k` in a keyed sequence.
pub fn find_u64_key(v: &Vec<(u64, CpuCounters)>, k: u64) -> (r: Option<usize>)
    ensures
        match (r, key_index(v@, k)) {
            (Some(i), Some(si)) => i as int == si && i < v@.len(),
            (None, None) => true,
            _ => false,
        },
{
    let mut i = v.len();
    proof { assert(v@.take(v@.len() as int) == v@); }
    while i > 0
        invariant
            i <= v@.len(),
            key_index(v@, k) == key_index(v@.take(i as int), k),
        decreases i,
    {
        proof { assert(v@.take(i as int).drop_last() == v@.take(i - 1)); }
        if v[i - 1].0 == k {
            return Some(i - 1);
        }
        i = i - 1;
    }
    None
}

/// Sets the counters of `k` in a map kept in ascending key order; an
/// existing entry is replaced only when `replace` holds.
fn put_cpu(v: &mut Vec<(u64, CpuCounters)>, k: u64, c: CpuCounters, replace: bool)
    ensures
        final(v)@ == ordered_put(old(v)@, k, c, replace),
{
    let ghost o = v@;
    let mut i: usize = 0;
    proof { assert(o.take(0) + o.skip(0) =~= o); }
    while i < v.len()
        invariant
            i <= v@.len(),
            v@ == o,
            o == old(v)@,
            ordered_put(o, k, c, replace) == o.take(i as int) + ordered_put(o.skip(i as int), k, c, replace),
        decreases v@.len() - i,
    {
        let y = v[i].0;
        proof {
            assert(o.skip(i as int)[0] == o[i as int]);
            assert(o.skip(i as int).skip(1) =~= o.skip(i + 1));
            assert(o.take(i + 1) =~= o.take(i as int) + seq![o[i as int]]);
        }
        if y == k {
            if replace {
                v.set(i, (k, c));
                assert(v@ =~= o.take(i as int) + (seq![(k, c)] + o.skip(i as int).skip(1)));
            } else {
                assert(o.take(i as int) + o.skip(i as int) =~= o);
            }
            return;
        }
        if k < y {
            v.insert(i, (k, c));
            assert(v@ =~= o.take(i as int) + (seq![(k, c)] + o.skip(i as int)));
            return;
        }
        i += 1;
    }
    v.push((k, c));
    assert(o.skip(o.len() as int) =~= Seq::<(u64, CpuCounters)>::empty());
    assert(o.take(o.len() as int) =~= o);
    assert(v@ =~= o.take(o.len() as int) + seq![(k, c)]);
}

impl TraceQuality {
    /// Keeps the message when fewer than 128 diagnostics are held.
    pub fn diagnostic(&mut self, message: String)
        ensures
            final(self)@ == add_diagnostic(old(self)@, message@),
    {
        if self.diagnostics.len() < MAX_DIAGNOSTICS {
            self.diagnostics.push(message);
            assert(texts_view(self.diagnostics@) =~= texts_view(old(self).diagnostics@).push(message@));
        }
    }
}

impl DecodedTrace {
    pub open spec fn bounded(&self) -> bool {
        &&& self.events@.len() <= MAX_EVENTS
        &&& self.processes@.len() <= MAX_METADATA
    }

    fn push_event(&mut self, ev: BlockEvent)
        ensures
            final(self)@ == (TraceView { events: old(self)@.events.push(ev@), ..old(self)@ }),
            final(self).events@.len() == old(self).events@.len() + 1,
            final(self).processes@.len() == old(self).processes@.len(),
    {
        let ghost ev_view = ev@;
        self.events.push(ev);
        assert(self@.events =~= old(self)@.events.push(ev_view));
    }

    fn push_process(&mut self, row: ProcessMetadata)
        ensures
            final(self)@ == (TraceView { processes: old(self)@.processes.push(row@), ..old(self)@ }),
            final(self).processes@.len() == old(self).processes@.len() + 1,
            final(self).events@.len() == old(self).events@.len(),
    {
        let ghost row_view = row@;
        self.processes.push(row);
        assert(self@.processes =~= old(self)@.processes.push(row_view));
    }

    fn kinds(&mut self, ev: &[u8], e: &Vec<Field>, cpu: Option<u32>, clock: u32) -> (r: Option<DecodeError>)
        requires
            old(self).bounded(),
            ranges_within(e@, ev@.len()),
        ensures
            final(self).bounded(),
            (final(self)@, r) == kinds_from(old(self)@, ev@, e@, 0, cpu, clock),
    {
        let ids: [u32; 4] = [45, 125, 126, 129];
        let kinds: [BlockKind; 4] = [BlockKind::Issue, BlockKind::Complete, BlockKind::Insert, BlockKind::Requeue];
        proof { lemma_children_within(e@, 45, ev@.len()); }
        let mut k: usize = 0;
        while k < 4
            invariant
                k <= 4,
                self.bounded(),
                ranges_within(e@, ev@.len()),
                ids@ == seq![45u32, 125u32, 126u32, 129u32],
                kinds@ == seq![BlockKind::Issue, BlockKind::Complete, BlockKind::Insert, BlockKind::Requeue],
                kinds_from(old(self)@, ev@, e@, 0, cpu, clock) == kinds_from(self@, ev@, e@, k as nat, cpu, clock),
            decreases 4 - k,
        {
            let id = ids[k];
            let kind = kinds[k];
            assert(id == kind_id(k as nat) && kind == kind_of(k as nat));
            proof { lemma_children_within(e@, id, ev@.len()); }
            match bytes(e, id) {
                None => {}
                Some((a, b)) => {
                    if self.events.len() >= MAX_EVENTS {
                        let ghost before = self@;
                        self.quality.projection_limited = true;
                        assert(self@ =~= mark_limited(before));
                    } else {
                        let payload = &ev[a..b];
                        let bf = match fields(payload) {
                            Ok(bf) => bf,
                            Err(x) => return Some(x),
                        };
                        let event = match block_event(self.events.len(), kind, e, &bf, payload, cpu, clock) {
                            Ok(event) => event,
                            Err(x) => return Some(x),
                        };
                        self.push_event(event);
                    }
                }
            }
            k += 1;
        }
        None
    }

    fn bundle(&mut self, d: &[u8]) -> (r: Option<DecodeError>)
        requires
            old(self).bounded(),
        ensures
            final(self).bounded(),
            (final(self)@, r) == bundle_step(old(self)@, d@),
    {
        let f = match fields(d) {
            Ok(f) => f,
            Err(x) => return Some(x),
        };
        let cpu = narrow(number(&f, 1));
        let clock: u32 = match number(&f, 5) {
            Some(v) => v as u32,
            None => 0,
        };
        if clock != 0 {
            insert_u32(&mut self.quality.unsupported_clocks, clock);
        }
        if number(&f, 3) == Some(1u64) {
            self.quality.lost_bundles = self.quality.lost_bundles.saturating_add(1);
        }
        let errs = children(&f, 8);
        self.quality.parse_errors = self.quality.parse_errors.saturating_add(errs.len() as u64);
        let list = children(&f, 2);
        proof { lemma_children_within(f@, 2, d@.len()); }
        assert(bundle_step(old(self)@, d@) == events_from(self@, d@, list@, 0, cpu, clock)) by {
            assert(self@.quality =~= ({
                let q1 = if clock != 0 {
                    QualityView { unsupported_clocks: ordered_insert(old(self)@.quality.unsupported_clocks, clock), ..old(self)@.quality }
                } else {
                    old(self)@.quality
                };
                let q2 = if spec_number(f@, 3) == Some(1u64) {
                    QualityView { lost_bundles: bump(q1.lost_bundles, 1), ..q1 }
                } else {
                    q1
                };
                QualityView { parse_errors: bump(q2.parse_errors, spec_children(f@, 8).len()), ..q2 }
            }));
        }
        let mut i: usize = 0;
        while i < list.len()
            invariant
                i <= list@.len(),
                self.bounded(),
                list@ == spec_children(f@, 2),
                forall|j: int| 0 <= j < list@.len() ==> (#[trigger] list@[j]).0 <= list@[j].1 <= d@.len(),
                bundle_step(old(self)@, d@) == events_from(self@, d@, list@, i as nat, cpu, clock),
            decreases list@.len() - i,
        {
            let (a, b) = list[i];
            let ev = &d[a..b];
            let e = match fields(ev) {
                Ok(e) => e,
                Err(x) => return Some(x),
            };
            if let Some(x) = self.kinds(ev, &e, cpu, clock) {
                return Some(x);
            }
            i += 1;
        }
        None
    }

    fn procs(&mut self, d: &[u8], list: &Vec<(usize, usize)>, is_thread: bool, snapshot: Option<u64>) -> (r: Flow)
        requires
            old(self).bounded(),
            forall|j: int| 0 <= j < list@.len() ==> (#[trigger] list@[j]).0 <= list@[j].1 <= d@.len(),
        ensures
            final(self).bounded(),
            (final(self)@, r) == procs_from(old(self)@, d@, list@, 0, is_thread, snapshot),
    {
        let mut i: usize = 0;
        while i < list.len()
            invariant
                i <= list@.len(),
                self.bounded(),
                forall|j: int| 0 <= j < list@.len() ==> (#[trigger] list@[j]).0 <= list@[j].1 <= d@.len(),
                procs_from(old(self)@, d@, list@, 0, is_thread, snapshot) == procs_from(self@, d@, list@, i as nat, is_thread, snapshot),
            decreases list@.len() - i,
        {
            if self.processes.len() >= MAX_METADATA {
                let ghost before = self@;
                self.quality.projection_limited = true;
                assert(self@ =~= mark_limited(before));
                return Flow::Stop;
            }
            let (a, b) = list[i];
            let raw = &d[a..b];
            let p = match fields(raw) {
                Ok(p) => p,
                Err(x) => return Flow::Fail(x),
            };
            let pid = match required(&p, if is_thread { 3 } else { 1 }) {
                Ok(v) => v,
                Err(x) => return Flow::Fail(x),
            };
            if pid > u32::MAX as u64 {
                return Flow::Fail(DecodeError::OutOfRange);
            }
            let name = match text(&p, if is_thread { 2 } else { 3 }, raw) {
                Some(t) => t,
                None => string_from_chars(&[]),
            };
            let row = ProcessMetadata {
                snapshot_ns: snapshot,
                pid: pid as u32,
                tid: if is_thread { narrow(number(&p, 1)) } else { None },
                name,
                start_from_boot_ns: if is_thread { None } else { number(&p, 7) },
            };
            proof {
                let empty: Seq<char> = seq![];
                assert(row@ == ProcessView {
                    snapshot_ns: snapshot,
                    pid: pid as u32,
                    tid: if is_thread { narrow_u32(spec_number(p@, 1)) } else { None },
                    name: match spec_text(p@, if is_thread { 2 } else { 3 }, raw@) {
                        Some(t) => t,
                        None => empty,
                    },
                    start_from_boot_ns: if is_thread { None } else { spec_number(p@, 7) },
                });
            }
            self.push_process(row);
            i += 1;
        }
        Flow::Continue
    }

    fn process_tree(&mut self, d: &[u8], snapshot: Option<u64>) -> (r: Option<DecodeError>)
        requires
            old(self).bounded(),
        ensures
            final(self).bounded(),
            (final(self)@, r) == process_tree_step(old(self)@, d@, snapshot),
    {
        let f = match fields(d) {
            Ok(f) => f,
            Err(x) => return Some(x),
        };
        proof {
            lemma_children_within(f@, 1, d@.len());
            lemma_children_within(f@, 2, d@.len());
        }
        let procs = children(&f, 1);
        match self.procs(d, &procs, false, snapshot) {
            Flow::Fail(x) => return Some(x),
            Flow::Stop => return None,
            Flow::Continue => {}
        }
        let threads = children(&f, 2);
        match self.procs(d, &threads, true, snapshot) {
            Flow::Fail(x) => Some(x),
            _ => None,
        }
    }

    fn ftrace_stats(&mut self, d: &[u8]) -> (r: Option<DecodeError>)
        requires
            old(self).bounded(),
        ensures
            final(self).bounded(),
            (final(self)@, r) == ftrace_stats_step(old(self)@, d@),
    {
        let f = match fields(d) {
            Ok(f) => f,
            Err(x) => return Some(x),
        };
        proof {
            lemma_children_within(f@, 6, d@.len());
            lemma_children_within(f@, 7, d@.len());
            lemma_children_within(f@, 2, d@.len());
        }
        let phase = number(&f, 1);
        self.quality.ftrace_start_seen = self.quality.ftrace_start_seen || phase == Some(1u64);
        self.quality.ftrace_end_seen = self.quality.ftrace_end_seen || phase == Some(2u64);
        let unknown = children(&f, 6);
        collect_names(&mut self.quality.unknown_events, d, &unknown);
        let failed = children(&f, 7);
        collect_names(&mut self.quality.failed_events, d, &failed);
        let setup_errors = count_fields(&f, 9);
        self.quality.parse_errors = self.quality.parse_errors.saturating_add(setup_errors);
        let cpus = children(&f, 2);
        assert(ftrace_stats_step(old(self)@, d@) == ({
            let (q5, r) = cpu_stats_from(self@.quality, d@, cpus@, 0, phase);
            (TraceView { quality: q5, ..old(self)@ }, r)
        }));
        let mut i: usize = 0;
        while i < cpus.len()
            invariant
                i <= cpus@.len(),
                self.bounded(),
                self@.events == old(self)@.events,
                self@.processes == old(self)@.processes,
                forall|j: int| 0 <= j < cpus@.len() ==> (#[trigger] cpus@[j]).0 <= cpus@[j].1 <= d@.len(),
                ftrace_stats_step(old(self)@, d@) == ({
                    let (q5, r) = cpu_stats_from(self@.quality, d@, cpus@, i as nat, phase);
                    (TraceView { quality: q5, ..old(self)@ }, r)
                }),
            decreases cpus@.len() - i,
        {
            let (a, b) = cpus[i];
            let c = match fields(&d[a..b]) {
                Ok(c) => c,
                Err(x) => {
                    assert(self@ =~= (TraceView { quality: self@.quality, ..old(self)@ }));
                    return Some(x);
                }
            };
            let cpu = match required(&c, 1) {
                Ok(v) => v,
                Err(x) => {
                    assert(self@ =~= (TraceView { quality: self@.quality, ..old(self)@ }));
                    return Some(x);
                }
            };
            let counters = CpuCounters {
                overrun: number(&c, 3),
                commit_overrun: number(&c, 4),
                dropped_events: number(&c, 8),
            };
            if phase == Some(1u64) {
                put_cpu(&mut self.quality.kernel_start, cpu, counters, false);
            }
            if phase == Some(2u64) {
                put_cpu(&mut self.quality.kernel_end, cpu, counters, true);
            }
            i += 1;
        }
        assert(self@ =~= (TraceView { quality: self@.quality, ..old(self)@ }));
        None
    }

    fn service_stats(&mut self, d: &[u8]) -> (r: Option<DecodeError>)
        requires
            old(self).bounded(),
        ensures
            final(self).bounded(),
            (final(self)@, r) == service_stats_step(old(self)@, d@),
    {
        let f = match fields(d) {
            Ok(f) => f,
            Err(x) => return Some(x),
        };
        proof { lemma_children_within(f@, 1, d@.len()); }
        self.quality.service_stats_seen = true;
        self.quality.final_flush_outcome = match number(&f, 15) {
            Some(v) => Some(v),
            None => self.quality.final_flush_outcome,
        };
        let ghost m0 = keyed_view(self.quality.service_loss_counters@);
        let ids: [u32; 4] = [8, 9, 10, 14];
        let mut k: usize = 0;
        while k < 4
            invariant
                k <= 4,
                ids@ == seq![8u32, 9u32, 10u32, 14u32],
                service_counters_from(m0, f@, 0) == service_counters_from(keyed_view(self.quality.service_loss_counters@), f@, k as nat),
                self.bounded(),
                self@.events == old(self)@.events,
                self@.processes == old(self)@.processes,
                self.quality.service_stats_seen,
                self.quality.final_flush_outcome == (match spec_number(f@, 15) {
                    Some(v) => Some(v),
                    None => old(self)@.quality.final_flush_outcome,
                }),
                self@.quality == (QualityView { service_loss_counters: self@.quality.service_loss_counters, service_stats_seen: true, final_flush_outcome: self.quality.final_flush_outcome, ..old(self)@.quality }),
            decreases 4 - k,
        {
            let id = ids[k];
            let name = service_counter_name(k);
            assert(service_counter(k as nat) == (id, name@));
            if let Some(v) = number(&f, id) {
                text_map_set(&mut self.quality.service_loss_counters, name, v);
            }
            k += 1;
        }
        let buffers = children(&f, 1);
        assert(service_stats_step(old(self)@, d@) == ({
            let (m, r) = buffers_from(keyed_view(self.quality.service_loss_counters@), d@, buffers@, 0);
            (TraceView { quality: QualityView { service_loss_counters: m, ..self@.quality }, ..old(self)@ }, r)
        }));
        let mut i: usize = 0;
        while i < buffers.len()
            invariant
                i <= buffers@.len(),
                forall|j: int| 0 <= j < buffers@.len() ==> (#[trigger] buffers@[j]).0 <= buffers@[j].1 <= d@.len(),
                service_stats_step(old(self)@, d@) == ({
                    let (m, r) = buffers_from(keyed_view(self.quality.service_loss_counters@), d@, buffers@, i as nat);
                    (TraceView { quality: QualityView { service_loss_counters: m, ..self@.quality }, ..old(self)@ }, r)
                }),
                self.bounded(),
                self@.events == old(self)@.events,
                self@.processes == old(self)@.processes,
                self@.quality == (QualityView { service_loss_counters: self@.quality.service_loss_counters, service_stats_seen: true, final_flush_outcome: self.quality.final_flush_outcome, ..old(self)@.quality }),
                self.quality.final_flush_outcome == (match spec_number(f@, 15) {
                    Some(v) => Some(v),
                    None => old(self)@.quality.final_flush_outcome,
                }),
            decreases buffers@.len() - i,
        {
            let (a, b) = buffers[i];
            let bf = match fields(&d[a..b]) {
                Ok(bf) => bf,
                Err(x) => {
                    assert(self@ =~= (TraceView { quality: self@.quality, ..old(self)@ }));
                    return Some(x);
                }
            };
            let bids: [u32; 6] = [13, 3, 18, 6, 9, 19];
            let ghost mb = keyed_view(self.quality.service_loss_counters@);
            let mut k: usize = 0;
            while k < 6
                invariant
                    k <= 6,
                    bids@ == seq![13u32, 3u32, 18u32, 6u32, 9u32, 19u32],
                    buffer_counters_from(mb, bf@, i as nat, 0) == buffer_counters_from(keyed_view(self.quality.service_loss_counters@), bf@, i as nat, k as nat),
                    self.bounded(),
                    self@.events == old(self)@.events,
                    self@.processes == old(self)@.processes,
                    self@.quality == (QualityView { service_loss_counters: self@.quality.service_loss_counters, service_stats_seen: true, final_flush_outcome: self.quality.final_flush_outcome, ..old(self)@.quality }),
                    self.quality.final_flush_outcome == (match spec_number(f@, 15) {
                        Some(v) => Some(v),
                        None => old(self)@.quality.final_flush_outcome,
                    }),
                decreases 6 - k,
            {
                let id = bids[k];
                if let Some(v) = number(&bf, id) {
                    let key = buffer_counter_key(i, k);
                    assert(buffer_counter(k as nat).0 == id);
                    text_map_set(&mut self.quality.service_loss_counters, key, v);
                }
                k += 1;
            }
            i += 1;
        }
        assert(self@ =~= (TraceView { quality: self@.quality, ..old(self)@ }));
        None
    }

    fn submessage(&mut self, which: usize, d: &[u8], snapshot: Option<u64>) -> (r: Option<DecodeError>)
        requires
            old(self).bounded(),
            which < 4,
        ensures
            final(self).bounded(),
            forall|p: Seq<u8>| (final(self)@, r) == #[trigger] submessage_step(old(self)@, p, which as nat, d@, snapshot),
    {
        if which == 0 {
            self.bundle(d)
        } else if which == 1 {
            self.process_tree(d, snapshot)
        } else if which == 2 {
            self.ftrace_stats(d)
        } else {
            self.service_stats(d)
        }
    }

    /// Applies one packet's payload.
    pub fn packet(&mut self, p: &[u8]) -> (r: Option<DecodeError>)
        requires
            old(self).bounded(),
        ensures
            final(self).bounded(),
            (final(self)@, r) == packet_step(old(self)@, p@),
    {
        let f = match fields(p) {
            Ok(f) => f,
            Err(x) => return Some(x),
        };
        assert(spec_fields(p@) == Ok::<Seq<Field>, DecodeError>(f@));
        let snapshot = number(&f, 8);
        let ids: [u32; 4] = [1, 2, 34, 35];
        let mut which: usize = 0;
        while which < 4
            invariant
                which <= 4,
                self.bounded(),
                ids@ == seq![1u32, 2u32, 34u32, 35u32],
                snapshot == spec_number(f@, 8),
                ranges_within(f@, p@.len()),
                spec_fields(p@) == Ok::<Seq<Field>, DecodeError>(f@),
                packet_parts_from(old(self)@, p@, f@, 0) == packet_parts_from(self@, p@, f@, which as nat),
            decreases 4 - which,
        {
            let id = ids[which];
            assert(id == submessage_id(which as nat));
            proof { lemma_children_within(f@, id, p@.len()); }
            let list = children(&f, id);
            let mut i: usize = 0;
            while i < list.len()
                invariant
                    i <= list@.len(),
                    which < 4,
                    self.bounded(),
                    list@ == spec_children(f@, submessage_id(which as nat)),
                    snapshot == spec_number(f@, 8),
                    spec_fields(p@) == Ok::<Seq<Field>, DecodeError>(f@),
                    forall|j: int| 0 <= j < list@.len() ==> (#[trigger] list@[j]).0 <= list@[j].1 <= p@.len(),
                    packet_parts_from(old(self)@, p@, f@, 0) == ({
                        let (st1, r) = submessages_from(self@, p@, which as nat, list@, i as nat, snapshot);
                        match r {
                            Some(x) => (st1, Some(x)),
                            None => packet_parts_from(st1, p@, f@, which as nat + 1),
                        }
                    }),
                decreases list@.len() - i,
            {
                let (a, b) = list[i];
                let ghost before = self@;
                let r = self.submessage(which, &p[a..b], snapshot);
                assert((self@, r) == submessage_step(before, p@, which as nat, p@.subrange(a as int, b as int), snapshot));
                if let Some(x) = r {
                    assert(submessages_from(before, p@, which as nat, list@, i as nat, snapshot) == (self@, Some(x)));
                    assert(packet_parts_from(old(self)@, p@, f@, 0) == (self@, Some(x)));
                    return Some(x);
                }
                i += 1;
            }
            which += 1;
        }
        if bytes(&f, 50).is_some() {
            self.quality.parse_errors = self.quality.parse_errors.saturating_add(1);
            self.quality.diagnostic(compressed_text());
        }
        None
    }

    /// A trace with nothing decoded yet.
    pub fn new() -> (r: DecodedTrace)
        ensures
            r@ == empty_trace(),
            r.bounded(),
    {
        let r = DecodedTrace {
            events: Vec::new(),
            processes: Vec::new(),
            quality: TraceQuality {
                packets: 0,
                lost_bundles: 0,
                parse_errors: 0,
                unsupported_clocks: Vec::new(),
                unknown_events: Vec::new(),
                failed_events: Vec::new(),
                diagnostics: Vec::new(),
                ftrace_start_seen: false,
                ftrace_end_seen: false,
                kernel_start: Vec::new(),
                kernel_end: Vec::new(),
                truncated: false,
                projection_limited: false,
                service_stats_seen: false,
                service_loss_counters: Vec::new(),
                final_flush_outcome: None,
            },
        };
        assert(r@ =~= empty_trace());
        r
    }

    fn truncate(&mut self, e: DecodeError)
        ensures
            final(self)@ == truncate_with(old(self)@, e),
            final(self).events@.len() == old(self).events@.len(),
            final(self).processes@.len() == old(self).processes@.len(),
    {
        self.quality.truncated = true;
        self.quality.diagnostic(e.message());
        assert(self@ =~= truncate_with(old(self)@, e));
    }

    /// Decodes root packets in file order, before any reordering of events.
    pub fn decode_packets(data: &[u8]) -> (r: DecodedTrace)
        ensures
            r@ == decode_from(empty_trace(), data@, 0),
            r.bounded(),
    {
        let mut result = DecodedTrace::new();
        let mut pos: usize = 0;
        while pos < data.len()
            invariant
                pos <= data@.len(),
                result.bounded(),
                decode_from(empty_trace(), data@, 0) == decode_from(result@, data@, pos as nat),
            decreases data@.len() - pos,
        {
            if data[pos] != 0x0a {
                result.truncate(DecodeError::UnsupportedRoot);
                return result;
            }
            proof { lemma_varint_progress(data@, pos as nat + 1); }
            let (len, p) = match varint(data, pos + 1) {
                Ok(v) => v,
                Err(x) => {
                    result.truncate(x);
                    return result;
                }
            };
            if len > usize::MAX as u64 {
                result.truncate(DecodeError::OutOfRange);
                return result;
            }
            let len = len as usize;
            if len > MAX_PACKET {
                result.truncate(DecodeError::PacketTooLarge);
                return result;
            }
            if len > data.len() - p {
                result.truncate(DecodeError::Eof);
                return result;
            }
            let ghost before = result@;
            result.quality.packets = result.quality.packets.saturating_add(1);
            let ghost counted = result@;
            assert(counted =~= (TraceView { quality: QualityView { packets: bump(before.quality.packets, 1), ..before.quality }, ..before }));
            let r = result.packet(&data[p..p + len]);
            let ghost st1 = result@;
            if let Some(x) = r {
                result.quality.parse_errors = result.quality.parse_errors.saturating_add(1);
                result.quality.diagnostic(x.message());
                assert(result@ =~= (TraceView {
                    quality: add_diagnostic(QualityView { parse_errors: bump(st1.quality.parse_errors, 1), ..st1.quality }, error_message(x)),
                    ..st1
                }));
            }
            proof {
                assert(decode_from(before, data@, pos as nat) == decode_from(result@, data@, (p + len) as nat));
            }
            pos = p + len;
        }
        result
    }
}

fn collect_names(names: &mut Vec<String>, d: &[u8], list: &Vec<(usize, usize)>)
    requires
        forall|j: int| 0 <= j < list@.len() ==> (#[trigger] list@[j]).0 <= list@[j].1 <= d@.len(),
    ensures
        texts_view(final(names)@) == names_from(texts_view(old(names)@), d@, list@, 0),
{
    let mut i: usize = 0;
    while i < list.len()
        invariant
            i <= list@.len(),
            forall|j: int| 0 <= j < list@.len() ==> (#[trigger] list@[j]).0 <= list@[j].1 <= d@.len(),
            names_from(texts_view(old(names)@), d@, list@, 0) == names_from(texts_view(names@), d@, list@, i as nat),
        decreases list@.len() - i,
    {
        let (a, b) = list[i];
        let end = if b - a > MAX_TEXT { a + MAX_TEXT } else { b };
        let name = lossy_text(&d[a..end]);
        text_set_add(names, name);
        i += 1;
    }
}

fn service_counter_name(k: usize) -> (s: String)
    requires
        k < 4,
    ensures
        s@ == service_counter(k as nat).1,
{
    let mut out: Vec<char> = Vec::new();
    if k == 0 {
        push_str(&mut out, "chunks_discarded");
    } else if k == 1 {
        push_str(&mut out, "patches_discarded");
    } else if k == 2 {
        push_str(&mut out, "invalid_packets");
    } else {
        push_str(&mut out, "flushes_failed");
    }
    string_from_chars(out.as_slice())
}

fn buffer_counter_key(idx: usize, k: usize) -> (s: String)
    requires
        k < 6,
    ensures
        s@ == buffer_key(idx as nat, buffer_counter(k as nat).1),
{
    let mut out: Vec<char> = Vec::new();
    push_str(&mut out, "buffer_");
    push_decimal(&mut out, idx as u64);
    push_str(&mut out, "_");
    if k == 0 {
        push_str(&mut out, "bytes_overwritten");
    } else if k == 1 {
        push_str(&mut out, "chunks_overwritten");
    } else if k == 2 {
        push_str(&mut out, "chunks_discarded");
    } else if k == 3 {
        push_str(&mut out, "patches_failed");
    } else if k == 4 {
        push_str(&mut out, "abi_violations");
    } else {
        push_str(&mut out, "trace_writer_packet_loss");
    }
    string_from_chars(out.as_slice())
}

fn compressed_text() -> (s: String)
    ensures
        s@ == compressed_message(),
{
    let mut out: Vec<char> = Vec::new();
    push_str(&mut out, "Compressed packets require decompression; raw trace retained");
    string_from_chars(out.as_slice())
}

// ---------------------------------------------------------------------------
// Time ordering. Producers and CPUs emit separate packet sequences, so events
// are reordered by timestamp, ties broken by record number.

pub open spec fn time_le(a: EventView, b: EventView) -> bool {
    a.timestamp_ns < b.timestamp_ns || (a.timestamp_ns == b.timestamp_ns && a.record_id <= b.record_id)
}

pub open spec fn time_sorted(s: Seq<EventView>) -> bool {
    forall|i: int, j: int| 0 <= i < j < s.len() ==> time_le(s[i], s[j])
}

/// `out` holds the elements of `inp` reordered by the index sequence `perm`,
/// which names every position of `inp` exactly once.
pub open spec fn reorders(out: Seq<EventView>, inp: Seq<EventView>, perm: Seq<int>) -> bool {
    &&& out.len() == inp.len()
    &&& perm.len() == inp.len()
    &&& forall|k: int| 0 <= k < perm.len() ==> 0 <= #[trigger] perm[k] < inp.len()
    &&& forall|k: int, l: int| 0 <= k < l < perm.len() ==> perm[k] != perm[l]
    &&& forall|k: int| 0 <= k < out.len() ==> out[k] == inp[#[trigger] perm[k]]
}

pub open spec fn index_sorted(ev: Seq<EventView>, r: Seq<usize>) -> bool {
    forall|p: int, q: int| 0 <= p < q < r.len() ==> time_le(ev[r[p] as int], ev[r[q] as int])
}

pub open spec fn index_run(r: Seq<usize>, lo: nat, hi: nat) -> bool {
    &&& r.len() == hi - lo
    &&& forall|p: int| 0 <= p < r.len() ==> lo <= #[trigger] r[p] < hi
    &&& forall|p: int, q: int| 0 <= p < q < r.len() ==> r[p] != r[q]
}

fn event_le(a: &BlockEvent, b: &BlockEvent) -> (r: bool)
    ensures
        r == time_le(a@, b@),
{
    a.timestamp_ns < b.timestamp_ns || (a.timestamp_ns == b.timestamp_ns && a.record_id <= b.record_id)
}

fn merge_runs(ev: &Vec<BlockEvent>, a: Vec<usize>, b: Vec<usize>, lo: Ghost<nat>, mid: Ghost<nat>, hi: Ghost<nat>) -> (r: Vec<usize>)
    requires
        lo@ <= mid@ <= hi@ <= ev@.len(),
        index_run(a@, lo@, mid@),
        index_run(b@, mid@, hi@),
        index_sorted(events_view(ev@), a@),
        index_sorted(events_view(ev@), b@),
    ensures
        index_run(r@, lo@, hi@),
        index_sorted(events_view(ev@), r@),
{
    let ghost evs = events_view(ev@);
    let mut out: Vec<usize> = Vec::new();
    let mut i: usize = 0;
    let mut j: usize = 0;
    while i < a.len() || j < b.len()
        invariant
            i <= a@.len(),
            j <= b@.len(),
            out@.len() == i + j,
            lo@ <= mid@ <= hi@ <= ev@.len(),
            evs == events_view(ev@),
            index_run(a@, lo@, mid@),
            index_run(b@, mid@, hi@),
            index_sorted(evs, a@),
            index_sorted(evs, b@),
            forall|p: int| 0 <= p < out@.len() ==> lo@ <= #[trigger] out@[p] < hi@,
            forall|p: int, q: int| 0 <= p < q < out@.len() ==> out@[p] != out@[q],
            forall|p: int, q: int| 0 <= p < out@.len() && i <= q < a@.len() ==> out@[p] != a@[q],
            forall|p: int, q: int| 0 <= p < out@.len() && j <= q < b@.len() ==> out@[p] != b@[q],
            index_sorted(evs, out@),
            forall|p: int, q: int| 0 <= p < out@.len() && i <= q < a@.len() ==> time_le(evs[out@[p] as int], evs[a@[q] as int]),
            forall|p: int, q: int| 0 <= p < out@.len() && j <= q < b@.len() ==> time_le(evs[out@[p] as int], evs[b@[q] as int]),
        decreases a@.len() + b@.len() - i - j,
    {
        let take_a = if i < a.len() && j < b.len() {
            event_le(&ev[a[i]], &ev[b[j]])
        } else {
            i < a.len()
        };
        if take_a {
            let x = a[i];
            assert(evs[x as int] == ev@[x as int]@);
            assert forall|q: int| j <= q < b@.len() implies time_le(evs[x as int], evs[b@[q] as int]) by {
                assert(evs[b@[j as int] as int] == ev@[b@[j as int] as int]@);
                if q > j {
                    assert(time_le(evs[b@[j as int] as int], evs[b@[q] as int]));
                }
            }
            assert forall|q: int| i < q < a@.len() implies time_le(evs[x as int], evs[a@[q] as int]) by {
                assert(time_le(evs[a@[i as int] as int], evs[a@[q] as int]));
            }
            out.push(x);
            i += 1;
        } else {
            let x = b[j];
            assert(evs[x as int] == ev@[x as int]@);
            assert forall|q: int| i <= q < a@.len() implies time_le(evs[x as int], evs[a@[q] as int]) by {
                assert(evs[a@[i as int] as int] == ev@[a@[i as int] as int]@);
                if q > i {
                    assert(time_le(evs[a@[i as int] as int], evs[a@[q] as int]));
                }
            }
            assert forall|q: int| j < q < b@.len() implies time_le(evs[x as int], evs[b@[q] as int]) by {
                assert(time_le(evs[b@[j as int] as int], evs[b@[q] as int]));
            }
            out.push(x);
            j += 1;
        }
    }
    out
}

fn sort_run(ev: &Vec<BlockEvent>, lo: usize, hi: usize) -> (r: Vec<usize>)
    requires
        lo <= hi <= ev@.len(),
    ensures
        index_run(r@, lo as nat, hi as nat),
        index_sorted(events_view(ev@), r@),
    decreases hi - lo,
{
    if hi - lo == 0 {
        return Vec::new();
    }
    if hi - lo == 1 {
        let mut r = Vec::new();
        r.push(lo);
        return r;
    }
    let mid = lo + (hi - lo) / 2;
    let a = sort_run(ev, lo, mid);
    let b = sort_run(ev, mid, hi);
    merge_runs(ev, a, b, Ghost(lo as nat), Ghost(mid as nat), Ghost(hi as nat))
}

/// Reorders events by `(timestamp_ns, record_id)`.
pub fn sort_by_time(ev: &Vec<BlockEvent>) -> (r: Vec<BlockEvent>)
    ensures
        time_sorted(events_view(r@)),
        exists|perm: Seq<int>| #[trigger] reorders(events_view(r@), events_view(ev@), perm),
{
    let ghost evs = events_view(ev@);
    let order = sort_run(ev, 0, ev.len());
    let mut out: Vec<BlockEvent> = Vec::new();
    let mut k: usize = 0;
    while k < order.len()
        invariant
            k <= order@.len(),
            index_run(order@, 0, ev@.len() as nat),
            index_sorted(evs, order@),
            evs == events_view(ev@),
            out@.len() == k,
            forall|p: int| 0 <= p < k ==> (#[trigger] out@[p])@ == evs[order@[p] as int],
        decreases order@.len() - k,
    {
        let e = ev[order[k]].duplicate();
        out.push(e);
        k += 1;
    }
    let ghost outs = events_view(out@);
    let ghost perm = order@.map_values(|x: usize| x as int);
    assert(reorders(outs, evs, perm));
    out
}

/// What the packets of a trace decode to, events in file order.
pub open spec fn decoded_in_file_order(data: Seq<u8>) -> TraceView {
    decode_from(empty_trace(), data, 0)
}

/// What `decode` returns for `data`: the processes and quality of the
/// packets, and their events reordered by time.
pub open spec fn decode_result(data: Seq<u8>, r: TraceView) -> bool {
    &&& r.processes == decoded_in_file_order(data).processes
    &&& r.quality == decoded_in_file_order(data).quality
    &&& time_sorted(r.events)
    &&& exists|perm: Seq<int>| #[trigger] reorders(r.events, decoded_in_file_order(data).events, perm)
}

/// Streams root packets with bounded allocation. A damaged tail keeps the
/// intact prefix and records the reason; it never erases collected data.
/// Events come out ordered by timestamp, then record number.
pub fn decode(data: &[u8]) -> (r: DecodedTrace)
    ensures
        r@.processes == decoded_in_file_order(data@).processes,
        r@.quality == decoded_in_file_order(data@).quality,
        time_sorted(r@.events),
        exists|perm: Seq<int>| #[trigger] reorders(r@.events, decoded_in_file_order(data@).events, perm),
        r.bounded(),
{
    let raw = DecodedTrace::decode_packets(data);
    let events = sort_by_time(&raw.events);
    let r = DecodedTrace { events, processes: raw.processes, quality: raw.quality };
    proof {
        let perm = choose|perm: Seq<int>| #[trigger] reorders(events_view(r.events@), events_view(raw.events@), perm);
        assert(reorders(r@.events, decoded_in_file_order(data@).events, perm));
    }
    r
}

} // verus!
