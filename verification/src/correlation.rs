//! Issue/completion correlation over decoded block tracepoints. Perfetto
//! provides no kernel request ID: a completion is tied to an issue only when
//! exactly one observed issue on the same device and direction matches its
//! range, and such a match is at best Probable, never Exact. Every completion
//! still contributes to volume and address analysis.
use vstd::prelude::*;
use vstd::multiset::Multiset;
use crate::perfetto::{
    BlockEvent, BlockKind, DecodedTrace, EventView, TraceView, QualityView, TraceQuality, clone_opt_string,
    opt_str, set_insert, bump, events_view, numbered,
};
use crate::text::{push_str, string_from_chars};

verus! {

pub const MAX_PENDING_PER_DEVICE: usize = 4096;

/// Events are correlated within one device and one direction.
pub type CorrelationKey = (u64, char);

/// First character of the rwbs flags, `?` when there is none.
pub open spec fn op_char(e: EventView) -> char {
    if e.rwbs.len() > 0 { e.rwbs[0] } else { '?' }
}

pub open spec fn event_key(e: EventView) -> CorrelationKey {
    (e.device_encoded, op_char(e))
}

pub open spec fn sector_end(sector: u64, sectors: u32) -> nat {
    if sector + sectors > u64::MAX { u64::MAX as nat } else { (sector + sectors) as nat }
}

/// Sector ranges intersect; a zero-length range only matches the same start.
pub open spec fn ranges_overlap(a: EventView, b: EventView) -> bool {
    if a.sectors == 0 || b.sectors == 0 {
        a.sector == b.sector
    } else {
        a.sector < sector_end(b.sector, b.sectors) && b.sector < sector_end(a.sector, a.sectors)
    }
}

pub open spec fn same_range(a: EventView, b: EventView) -> bool {
    a.sector == b.sector && a.sectors == b.sectors
}

/// An issue awaiting its completion: event positions in the trace.
#[derive(Debug, Clone, Copy, PartialEq, Eq, Structural)]
pub struct Pending {
    pub issue: usize,
    pub insert: Option<usize>,
    pub compromised: bool,
}

/// One completion record with whatever issue evidence could be established.
#[derive(Debug)]
pub struct BlockObservation {
    pub completion_record: u64,
    pub timestamp_ns: u64,
    pub device_encoded: u64,
    pub sector: u64,
    pub bytes: u64,
    pub rwbs: String,
    pub error: Option<i32>,
    pub clock: u32,
    /// Raw issue records in this trace; none is chosen when overlapping,
    /// partial or repeated requests were observed.
    pub issue_candidates: Vec<u64>,
    pub issue_timestamp_ns: Option<u64>,
    pub issuer_tid: Option<u32>,
    pub issuer_comm: Option<String>,
    pub device_latency_ns: Option<u64>,
    pub queue_latency_ns: Option<u64>,
    pub timing_confidence: String,
    pub reason: String,
}

#[verifier::ext_equal]
pub struct ObservationView {
    pub completion_record: u64,
    pub timestamp_ns: u64,
    pub device_encoded: u64,
    pub sector: u64,
    pub bytes: u64,
    pub rwbs: Seq<char>,
    pub error: Option<i32>,
    pub clock: u32,
    pub issue_candidates: Seq<u64>,
    pub issue_timestamp_ns: Option<u64>,
    pub issuer_tid: Option<u32>,
    pub issuer_comm: Option<Seq<char>>,
    pub device_latency_ns: Option<u64>,
    pub queue_latency_ns: Option<u64>,
    pub timing_confidence: Seq<char>,
    pub reason: Seq<char>,
}

impl View for BlockObservation {
    type V = ObservationView;

    open spec fn view(&self) -> ObservationView {
        ObservationView {
            completion_record: self.completion_record,
            timestamp_ns: self.timestamp_ns,
            device_encoded: self.device_encoded,
            sector: self.sector,
            bytes: self.bytes,
            rwbs: self.rwbs@,
            error: self.error,
            clock: self.clock,
            issue_candidates: self.issue_candidates@,
            issue_timestamp_ns: self.issue_timestamp_ns,
            issuer_tid: self.issuer_tid,
            issuer_comm: opt_str(self.issuer_comm),
            device_latency_ns: self.device_latency_ns,
            queue_latency_ns: self.queue_latency_ns,
            timing_confidence: self.timing_confidence@,
            reason: self.reason@,
        }
    }
}

/// The result of correlating one trace.
#[derive(Debug)]
pub struct BlockAnalysis {
    pub completions: Vec<BlockObservation>,
    /// Issues without an unambiguous consumed completion, including issues
    /// whose completion was observed but could not be assigned uniquely.
    pub unmatched_issue_records: Vec<u64>,
    pub orphan_insert_records: Vec<u64>,
    pub unpaired_requeue_records: Vec<u64>,
    pub correlation_limit_hits: u64,
}

#[verifier::ext_equal]
pub struct AnalysisView {
    pub completions: Seq<ObservationView>,
    pub unmatched_issue_records: Seq<u64>,
    pub orphan_insert_records: Seq<u64>,
    pub unpaired_requeue_records: Seq<u64>,
    pub correlation_limit_hits: u64,
}

pub open spec fn observations_view(v: Seq<BlockObservation>) -> Seq<ObservationView> {
    v.map_values(|o: BlockObservation| o@)
}

impl View for BlockAnalysis {
    type V = AnalysisView;

    open spec fn view(&self) -> AnalysisView {
        AnalysisView {
            completions: observations_view(self.completions@),
            unmatched_issue_records: self.unmatched_issue_records@,
            orphan_insert_records: self.orphan_insert_records@,
            unpaired_requeue_records: self.unpaired_requeue_records@,
            correlation_limit_hits: self.correlation_limit_hits,
        }
    }
}

pub open spec fn unresolved_text() -> Seq<char> { "Unresolved"@ }
pub open spec fn probable_text() -> Seq<char> { "Probable"@ }
pub open spec fn no_candidate_reason() -> Seq<char> {
    "No observed issue candidate; raw completion volume and address retained"@
}
pub open spec fn ambiguous_reason() -> Seq<char> {
    "Overlapping, repeated, partial or requeued request; timing and issuer unresolved"@
}
pub open spec fn lossy_trace_reason() -> Seq<char> {
    "Trace loss, corruption or projection limit makes issue/completion matching unreliable"@
}
pub open spec fn clock_reason() -> Seq<char> {
    "Unsupported ftrace clock; cross-CPU timing is unavailable"@
}
pub open spec fn order_reason() -> Seq<char> {
    "Equal or reversed timestamps do not establish event order"@
}
pub open spec fn probable_reason() -> Seq<char> {
    "Unique observed device/sector/size/direction match; Perfetto provides no kernel request ID. FilePath unavailable"@
}
pub open spec fn multiple_reason() -> Seq<char> {
    "Multiple overlapping issue candidates; no arbitrary issuer or latency assigned"@
}

/// Sum of the known counter deltas of one CPU; unknown or reset counters
/// make the loss unknown.
pub open spec fn counter_delta(start: Option<u64>, end: Option<u64>) -> Option<nat> {
    match (start, end) {
        (Some(a), Some(b)) => if b >= a { Some((b - a) as nat) } else { None },
        _ => None,
    }
}

pub open spec fn add_known(a: Option<nat>, b: Option<nat>) -> Option<nat> {
    match (a, b) {
        (Some(x), Some(y)) => Some(x + y),
        _ => None,
    }
}

pub open spec fn cpu_loss(start: crate::perfetto::CpuCounters, end: crate::perfetto::CpuCounters) -> Option<nat> {
    add_known(add_known(counter_delta(start.overrun, end.overrun), counter_delta(start.commit_overrun, end.commit_overrun)),
        counter_delta(start.dropped_events, end.dropped_events))
}

/// Total loss over the CPUs with an end snapshot; each needs a start snapshot.
pub open spec fn total_loss(end: Seq<(u64, crate::perfetto::CpuCounters)>, start: Seq<(u64, crate::perfetto::CpuCounters)>) -> Option<nat>
    decreases end.len(),
{
    if end.len() == 0 {
        Some(0)
    } else {
        let (cpu, e) = end.last();
        let here = match crate::perfetto::key_index(start, cpu) {
            Some(i) => cpu_loss(start[i].1, e),
            None => None,
        };
        add_known(total_loss(end.drop_last(), start), here)
    }
}

/// Kernel ring-buffer events lost between the first start and last end
/// statistics, when both phases and every needed counter were observed.
pub open spec fn kernel_lost(q: QualityView) -> Option<u64> {
    if !q.ftrace_start_seen || !q.ftrace_end_seen || q.kernel_end.len() == 0 {
        None
    } else {
        match total_loss(q.kernel_end, q.kernel_start) {
            Some(n) => if n <= u64::MAX { Some(n as u64) } else { None },
            None => None,
        }
    }
}

/// Any evidence that events may be missing or undecodable.
pub open spec fn quality_compromised(q: QualityView) -> bool {
    ||| q.truncated
    ||| q.projection_limited
    ||| q.lost_bundles > 0
    ||| q.parse_errors > 0
    ||| (kernel_lost(q) matches Some(v) && v > 0)
    ||| (exists|i: int| 0 <= i < q.service_loss_counters.len() && #[trigger] q.service_loss_counters[i].1 > 0)
    ||| q.final_flush_outcome == Some(2u64)
}

fn delta(start: Option<u64>, end: Option<u64>) -> (r: Option<u64>)
    ensures
        match (r, counter_delta(start, end)) {
            (Some(x), Some(y)) => x as nat == y,
            (None, None) => true,
            _ => false,
        },
{
    match (start, end) {
        (Some(a), Some(b)) => b.checked_sub(a),
        _ => None,
    }
}

proof fn lemma_total_loss_monotone(end: Seq<(u64, crate::perfetto::CpuCounters)>, start: Seq<(u64, crate::perfetto::CpuCounters)>, k: int)
    requires
        0 <= k <= end.len(),
    ensures
        match (total_loss(end, start), total_loss(end.take(k), start)) {
            (Some(t), Some(p)) => p <= t,
            (Some(t), None) => false,
            _ => true,
        },
    decreases end.len(),
{
    if k < end.len() {
        assert(end.drop_last().take(k) == end.take(k));
        lemma_total_loss_monotone(end.drop_last(), start, k);
    } else {
        assert(end.take(k) == end);
    }
}

impl TraceQuality {
    /// Kernel ring-buffer loss, or `None` when it cannot be measured.
    pub fn kernel_lost_events(&self) -> (r: Option<u64>)
        ensures
            r == kernel_lost(self@),
    {
        if !self.ftrace_start_seen || !self.ftrace_end_seen || self.kernel_end.len() == 0 {
            return None;
        }
        let ghost q = self@;
        let mut sum: u64 = 0;
        let mut i: usize = 0;
        while i < self.kernel_end.len()
            invariant
                i <= self.kernel_end@.len(),
                q == self@,
                total_loss(self.kernel_end@.take(i as int), self.kernel_start@) == Some(sum as nat),
            decreases self.kernel_end@.len() - i,
        {
            let (cpu, e) = self.kernel_end[i];
            proof {
                assert(self.kernel_end@.take(i + 1).drop_last() == self.kernel_end@.take(i as int));
                assert(self.kernel_end@.take(i + 1).last() == self.kernel_end@[i as int]);
            }
            let found = crate::perfetto::find_u64_key(&self.kernel_start, cpu);
            let s = match found {
                Some(j) => self.kernel_start[j].1,
                None => {
                    proof { lemma_total_loss_monotone(self.kernel_end@, self.kernel_start@, i + 1); }
                    return None;
                }
            };
            let d0 = match delta(s.overrun, e.overrun) {
                Some(v) => v,
                None => {
                    proof { lemma_total_loss_monotone(self.kernel_end@, self.kernel_start@, i + 1); }
                    return None;
                }
            };
            let d1 = match delta(s.commit_overrun, e.commit_overrun) {
                Some(v) => v,
                None => {
                    proof { lemma_total_loss_monotone(self.kernel_end@, self.kernel_start@, i + 1); }
                    return None;
                }
            };
            let d2 = match delta(s.dropped_events, e.dropped_events) {
                Some(v) => v,
                None => {
                    proof { lemma_total_loss_monotone(self.kernel_end@, self.kernel_start@, i + 1); }
                    return None;
                }
            };
            let next = match sum.checked_add(d0) {
                Some(a) => match a.checked_add(d1) {
                    Some(b) => b.checked_add(d2),
                    None => None,
                },
                None => None,
            };
            match next {
                Some(v) => { sum = v; }
                None => {
                    proof { lemma_total_loss_monotone(self.kernel_end@, self.kernel_start@, i + 1); }
                    return None;
                }
            }
            i += 1;
        }
        proof { assert(self.kernel_end@.take(self.kernel_end@.len() as int) == self.kernel_end@); }
        Some(sum)
    }

    /// Whether loss, corruption or limits make correlation unreliable.
    pub fn compromised(&self) -> (r: bool)
        ensures
            r == quality_compromised(self@),
    {
        if self.truncated || self.projection_limited || self.lost_bundles > 0 || self.parse_errors > 0 {
            return true;
        }
        match self.kernel_lost_events() {
            Some(v) => if v > 0 { return true; },
            None => {}
        }
        let mut i: usize = 0;
        while i < self.service_loss_counters.len()
            invariant
                i <= self.service_loss_counters@.len(),
                forall|j: int| 0 <= j < i ==> self@.service_loss_counters[j].1 == 0,
            decreases self.service_loss_counters@.len() - i,
        {
            if self.service_loss_counters[i].1 > 0 {
                assert(self@.service_loss_counters[i as int].1 > 0);
                return true;
            }
            i += 1;
        }
        self.final_flush_outcome == Some(2u64)
    }
}

// ---------------------------------------------------------------------------
// Correlation state. Keyed queues are kept as parallel key/list sequences;
// a key is found, or inserted, at the first position whose key is not
// smaller, so queues stay in key order.

pub open spec fn key_lt(a: CorrelationKey, b: CorrelationKey) -> bool {
    a.0 < b.0 || (a.0 == b.0 && (a.1 as u32) < (b.1 as u32))
}

pub open spec fn lower_pos(keys: Seq<CorrelationKey>, k: CorrelationKey) -> nat
    decreases keys.len(),
{
    if keys.len() == 0 {
        0
    } else if !key_lt(keys[0], k) {
        0
    } else {
        1 + lower_pos(keys.drop_first(), k)
    }
}

pub proof fn lemma_lower_pos_bound(keys: Seq<CorrelationKey>, k: CorrelationKey)
    ensures
        lower_pos(keys, k) <= keys.len(),
    decreases keys.len(),
{
    if keys.len() > 0 && key_lt(keys[0], k) {
        lemma_lower_pos_bound(keys.drop_first(), k);
    }
}

pub open spec fn has_key(keys: Seq<CorrelationKey>, k: CorrelationKey) -> bool {
    lower_pos(keys, k) < keys.len() && keys[lower_pos(keys, k) as int] == k
}

/// The queue stored under `k`, empty when absent.
pub open spec fn queue_of<T>(keys: Seq<CorrelationKey>, lists: Seq<Seq<T>>, k: CorrelationKey) -> Seq<T> {
    if has_key(keys, k) { lists[lower_pos(keys, k) as int] } else { seq![] }
}

/// Stores `list` under `k`, adding the key when absent.
pub open spec fn store_queue<T>(keys: Seq<CorrelationKey>, lists: Seq<Seq<T>>, k: CorrelationKey, list: Seq<T>) -> (Seq<CorrelationKey>, Seq<Seq<T>>) {
    let i = lower_pos(keys, k) as int;
    if has_key(keys, k) {
        (keys, lists.update(i, list))
    } else {
        (keys.insert(i, k), lists.insert(i, list))
    }
}

#[verifier::ext_equal]
pub struct CorrelationState {
    pub pending_keys: Seq<CorrelationKey>,
    pub pending: Seq<Seq<Pending>>,
    pub inserted_keys: Seq<CorrelationKey>,
    pub inserted: Seq<Seq<usize>>,
    pub limited: Seq<CorrelationKey>,
    pub out: AnalysisView,
}

pub open spec fn initial_state() -> CorrelationState {
    CorrelationState {
        pending_keys: seq![],
        pending: seq![],
        inserted_keys: seq![],
        inserted: seq![],
        limited: seq![],
        out: AnalysisView {
            completions: seq![],
            unmatched_issue_records: seq![],
            orphan_insert_records: seq![],
            unpaired_requeue_records: seq![],
            correlation_limit_hits: 0,
        },
    }
}

pub open spec fn issue_ids(evs: Seq<EventView>, list: Seq<Pending>) -> Seq<u64> {
    list.map_values(|p: Pending| evs[p.issue as int].record_id)
}

pub open spec fn insert_ids(evs: Seq<EventView>, list: Seq<usize>) -> Seq<u64> {
    list.map_values(|i: usize| evs[i as int].record_id)
}

/// Positions in `list` whose issue overlaps `e`, ascending.
pub open spec fn overlapping(evs: Seq<EventView>, list: Seq<Pending>, e: EventView) -> Seq<int>
    decreases list.len(),
{
    if list.len() == 0 {
        seq![]
    } else {
        let rest = overlapping(evs, list.drop_last(), e);
        if ranges_overlap(evs[list.last().issue as int], e) { rest.push(list.len() - 1) } else { rest }
    }
}

/// Positions in an insert queue whose insert overlaps `e`, ascending.
pub open spec fn overlapping_inserts(evs: Seq<EventView>, list: Seq<usize>, e: EventView) -> Seq<int>
    decreases list.len(),
{
    if list.len() == 0 {
        seq![]
    } else {
        let rest = overlapping_inserts(evs, list.drop_last(), e);
        if ranges_overlap(evs[list.last() as int], e) { rest.push(list.len() - 1) } else { rest }
    }
}

/// Marks every pending issue overlapping `e` as compromised.
pub open spec fn mark_overlapping(evs: Seq<EventView>, list: Seq<Pending>, e: EventView) -> Seq<Pending> {
    list.map_values(|p: Pending| if ranges_overlap(evs[p.issue as int], e) { Pending { compromised: true, ..p } } else { p })
}

/// The observation of completion `e`, before any issue evidence.
pub open spec fn base_observation(e: EventView, candidates: Seq<u64>) -> ObservationView {
    ObservationView {
        completion_record: e.record_id,
        timestamp_ns: e.timestamp_ns,
        device_encoded: e.device_encoded,
        sector: e.sector,
        bytes: e.bytes,
        rwbs: e.rwbs,
        error: e.error,
        clock: e.clock,
        issue_candidates: candidates,
        issue_timestamp_ns: None,
        issuer_tid: None,
        issuer_comm: None,
        device_latency_ns: None,
        queue_latency_ns: None,
        timing_confidence: unresolved_text(),
        reason: no_candidate_reason(),
    }
}

/// Queue time from an insert that precedes its issue on the boot clock.
pub open spec fn queue_latency(evs: Seq<EventView>, p: Pending) -> Option<u64> {
    match p.insert {
        Some(i) => if evs[i as int].clock == 0 && evs[i as int].timestamp_ns < evs[p.issue as int].timestamp_ns {
            Some((evs[p.issue as int].timestamp_ns - evs[i as int].timestamp_ns) as u64)
        } else {
            None
        },
        None => None,
    }
}

/// The observation for a completion with exactly one overlapping issue `p`.
pub open spec fn unique_observation(evs: Seq<EventView>, q: QualityView, base: ObservationView, p: Pending, e: EventView) -> ObservationView {
    let issue = evs[p.issue as int];
    if p.compromised || !same_range(issue, e) {
        ObservationView { reason: ambiguous_reason(), ..base }
    } else if quality_compromised(q) {
        ObservationView { reason: lossy_trace_reason(), ..base }
    } else if e.clock != 0 || issue.clock != 0 {
        ObservationView { reason: clock_reason(), ..base }
    } else if e.timestamp_ns <= issue.timestamp_ns {
        ObservationView { reason: order_reason(), ..base }
    } else {
        ObservationView {
            issue_timestamp_ns: Some(issue.timestamp_ns),
            issuer_tid: issue.tid,
            issuer_comm: issue.comm,
            device_latency_ns: Some((e.timestamp_ns - issue.timestamp_ns) as u64),
            queue_latency_ns: queue_latency(evs, p),
            timing_confidence: probable_text(),
            reason: probable_reason(),
            ..base
        }
    }
}

pub open spec fn with_pending(st: CorrelationState, k: CorrelationKey, list: Seq<Pending>) -> CorrelationState {
    let (keys, lists) = store_queue(st.pending_keys, st.pending, k, list);
    CorrelationState { pending_keys: keys, pending: lists, ..st }
}

pub open spec fn with_inserted(st: CorrelationState, k: CorrelationKey, list: Seq<usize>) -> CorrelationState {
    let (keys, lists) = store_queue(st.inserted_keys, st.inserted, k, list);
    CorrelationState { inserted_keys: keys, inserted: lists, ..st }
}

pub open spec fn note_limit(st: CorrelationState, k: CorrelationKey) -> CorrelationState {
    CorrelationState {
        limited: set_insert(st.limited, k),
        out: AnalysisView { correlation_limit_hits: bump(st.out.correlation_limit_hits, 1), ..st.out },
        ..st
    }
}

/// An insert joins its queue; a full queue is first flushed as orphans.
pub open spec fn insert_step(evs: Seq<EventView>, st: CorrelationState, n: int) -> CorrelationState {
    let e = evs[n];
    let k = event_key(e);
    let list = queue_of(st.inserted_keys, st.inserted, k);
    if list.len() >= MAX_PENDING_PER_DEVICE {
        let st1 = note_limit(CorrelationState {
            out: AnalysisView { orphan_insert_records: st.out.orphan_insert_records + insert_ids(evs, list), ..st.out },
            ..st
        }, k);
        with_inserted(st1, k, seq![n as usize])
    } else {
        with_inserted(st, k, list.push(n as usize))
    }
}

/// An issue claims a unique same-range insert, compromises overlapping
/// pending issues, and joins its queue; a full queue is flushed as unmatched.
pub open spec fn issue_step(evs: Seq<EventView>, st: CorrelationState, n: int) -> CorrelationState {
    let e = evs[n];
    let k = event_key(e);
    let ins = queue_of(st.inserted_keys, st.inserted, k);
    let m = overlapping_inserts(evs, ins, e);
    let claims = m.len() == 1 && same_range(evs[ins[m[0]] as int], e);
    let insert: Option<usize> = if claims { Some(ins[m[0]]) } else { None };
    let st1 = with_inserted(st, k, if claims { ins.remove(m[0]) } else { ins });
    let list = queue_of(st1.pending_keys, st1.pending, k);
    let clash = overlapping(evs, list, e).len() > 0;
    let marked = mark_overlapping(evs, list, e);
    let compromised = st1.limited.contains(k) || clash;
    if marked.len() >= MAX_PENDING_PER_DEVICE {
        let st2 = note_limit(CorrelationState {
            out: AnalysisView { unmatched_issue_records: st1.out.unmatched_issue_records + issue_ids(evs, marked), ..st1.out },
            ..st1
        }, k);
        with_pending(st2, k, seq![Pending { issue: n as usize, insert, compromised: true }])
    } else {
        with_pending(st1, k, marked.push(Pending { issue: n as usize, insert, compromised }))
    }
}

/// A requeue compromises overlapping pending issues; one with none is unpaired.
pub open spec fn requeue_step(evs: Seq<EventView>, st: CorrelationState, n: int) -> CorrelationState {
    let e = evs[n];
    let k = event_key(e);
    let list = queue_of(st.pending_keys, st.pending, k);
    let matched = overlapping(evs, list, e).len() > 0;
    let st1 = if matched {
        st
    } else {
        CorrelationState {
            out: AnalysisView { unpaired_requeue_records: st.out.unpaired_requeue_records.push(e.record_id), ..st.out },
            ..st
        }
    };
    with_pending(st1, k, mark_overlapping(evs, list, e))
}

/// A completion always yields one observation. A unique candidate is consumed
/// when its range is identical, otherwise compromised; several candidates are
/// all compromised.
pub open spec fn complete_step(evs: Seq<EventView>, q: QualityView, st: CorrelationState, n: int) -> CorrelationState {
    let e = evs[n];
    let k = event_key(e);
    let list = queue_of(st.pending_keys, st.pending, k);
    let cands = overlapping(evs, list, e);
    let base = base_observation(e, cands.map_values(|i: int| evs[list[i].issue as int].record_id));
    let (obs, list2) = if cands.len() == 1 {
        let p = list[cands[0]];
        let exact = same_range(evs[p.issue as int], e);
        (unique_observation(evs, q, base, p, e),
            if exact { list.remove(cands[0]) } else { list.update(cands[0], Pending { compromised: true, ..p }) })
    } else if cands.len() > 1 {
        (ObservationView { reason: multiple_reason(), ..base }, mark_overlapping(evs, list, e))
    } else {
        (base, list)
    };
    let st1 = CorrelationState { out: AnalysisView { completions: st.out.completions.push(obs), ..st.out }, ..st };
    with_pending(st1, k, list2)
}

pub open spec fn correlate_step(evs: Seq<EventView>, q: QualityView, st: CorrelationState, n: int) -> CorrelationState {
    match evs[n].kind {
        BlockKind::Insert => insert_step(evs, st, n),
        BlockKind::Issue => issue_step(evs, st, n),
        BlockKind::Requeue => requeue_step(evs, st, n),
        BlockKind::Complete => complete_step(evs, q, st, n),
    }
}

/// State after the first `n` events, in trace order.
pub open spec fn correlate_prefix(evs: Seq<EventView>, q: QualityView, n: nat) -> CorrelationState
    decreases n,
{
    if n == 0 {
        initial_state()
    } else {
        correlate_step(evs, q, correlate_prefix(evs, q, (n - 1) as nat), n - 1)
    }
}

/// The analysis of a decoded trace: after all events, issues still pending
/// are unmatched and inserts still queued are orphans, in key order.
pub open spec fn spec_analyze(t: TraceView) -> AnalysisView {
    let st = correlate_prefix(t.events, t.quality, t.events.len());
    let pending_ids = st.pending.map_values(|l: Seq<Pending>| issue_ids(t.events, l)).flatten();
    let insert_ids_all = st.inserted.map_values(|l: Seq<usize>| insert_ids(t.events, l)).flatten();
    AnalysisView {
        unmatched_issue_records: st.out.unmatched_issue_records + pending_ids,
        orphan_insert_records: st.out.orphan_insert_records + insert_ids_all,
        ..st.out
    }
}

// ---------------------------------------------------------------------------
// Executable correlator.

pub open spec fn lists_view<T>(v: Seq<Vec<T>>) -> Seq<Seq<T>> {
    v.map_values(|l: Vec<T>| l@)
}

fn same_key(a: CorrelationKey, b: CorrelationKey) -> (r: bool)
    ensures
        r == (a == b),
{
    a.0 == b.0 && a.1 == b.1
}

fn key_less(a: CorrelationKey, b: CorrelationKey) -> (r: bool)
    ensures
        r == key_lt(a, b),
{
    a.0 < b.0 || (a.0 == b.0 && (a.1 as u32) < (b.1 as u32))
}

fn lower_position(keys: &Vec<CorrelationKey>, k: CorrelationKey) -> (r: usize)
    ensures
        r as nat == lower_pos(keys@, k),
        r <= keys@.len(),
        (r < keys@.len() && keys@[r as int] == k) == has_key(keys@, k),
{
    let mut i: usize = 0;
    assert(keys@.skip(0) == keys@);
    while i < keys.len() && key_less(keys[i], k)
        invariant
            i <= keys@.len(),
            lower_pos(keys@, k) == i + lower_pos(keys@.skip(i as int), k),
        decreases keys@.len() - i,
    {
        assert(keys@.skip(i as int).drop_first() == keys@.skip(i + 1));
        i += 1;
    }
    assert(lower_pos(keys@.skip(i as int), k) == 0) by {
        if i < keys@.len() {
            assert(keys@.skip(i as int)[0] == keys@[i as int]);
        }
    }
    i
}

/// Takes the queue stored under `k` out of `lists`.
fn take_queue<T>(keys: &Vec<CorrelationKey>, lists: &mut Vec<Vec<T>>, k: CorrelationKey) -> (r: (usize, bool, Vec<T>))
    requires
        old(lists)@.len() == keys@.len(),
    ensures
        r.0 as nat == lower_pos(keys@, k),
        r.0 <= keys@.len(),
        r.1 == has_key(keys@, k),
        r.2@ == queue_of(keys@, lists_view(old(lists)@), k),
        final(lists)@ == if r.1 { old(lists)@.remove(r.0 as int) } else { old(lists)@ },
{
    let pos = lower_position(keys, k);
    if pos < keys.len() && same_key(keys[pos], k) {
        let list = lists.remove(pos);
        (pos, true, list)
    } else {
        (pos, false, Vec::new())
    }
}

/// Puts a queue back under `k`, adding the key when it was absent.
fn put_queue<T>(keys: &mut Vec<CorrelationKey>, lists: &mut Vec<Vec<T>>, k: CorrelationKey, slot: (usize, bool), list: Vec<T>, Ghost(before): Ghost<Seq<Vec<T>>>)
    requires
        before.len() == old(keys)@.len(),
        slot.0 as nat == lower_pos(old(keys)@, k),
        slot.0 <= old(keys)@.len(),
        slot.1 == has_key(old(keys)@, k),
        old(lists)@ == if slot.1 { before.remove(slot.0 as int) } else { before },
    ensures
        (final(keys)@, lists_view(final(lists)@)) == store_queue(old(keys)@, lists_view(before), k, list@),
        final(keys)@.len() == final(lists)@.len(),
{
    let ghost l = list@;
    if slot.1 {
        lists.insert(slot.0, list);
        assert(lists_view(lists@) =~= lists_view(before).update(slot.0 as int, l));
    } else {
        keys.insert(slot.0, k);
        lists.insert(slot.0, list);
        assert(lists_view(lists@) =~= lists_view(before).insert(slot.0 as int, l));
    }
}

impl BlockEvent {
    /// The operation letter: the first character of `rwbs`, or `?` when it
    /// is empty.
    pub fn operation(&self) -> (r: char)
        ensures
            r == op_char(self@),
    {
        let chars = crate::text::str_chars(self.rwbs.as_str());
        if chars.len() > 0 { chars[0] } else { '?' }
    }

    /// Sector ranges intersect; a zero-length range overlaps only a range
    /// starting at the same sector.
    pub fn overlaps(&self, other: &BlockEvent) -> (r: bool)
        ensures
            r == ranges_overlap(self@, other@),
    {
        if self.sectors == 0 || other.sectors == 0 {
            return self.sector == other.sector;
        }
        self.sector < other.sector.saturating_add(other.sectors as u64) && other.sector < self.sector.saturating_add(self.sectors as u64)
    }

    /// Same start sector and length.
    pub fn same_range(&self, other: &BlockEvent) -> (r: bool)
        ensures
            r == same_range(self@, other@),
    {
        self.sector == other.sector && self.sectors == other.sectors
    }
}

pub open spec fn pending_within(list: Seq<Pending>, n: nat) -> bool {
    forall|i: int| 0 <= i < list.len() ==> (#[trigger] list[i]).issue < n && (list[i].insert matches Some(x) ==> x < n)
}

pub open spec fn inserts_within(list: Seq<usize>, n: nat) -> bool {
    forall|i: int| 0 <= i < list.len() ==> #[trigger] list[i] < n
}

fn overlapping_positions(ev: &Vec<BlockEvent>, list: &Vec<Pending>, e: &BlockEvent) -> (r: Vec<usize>)
    requires
        pending_within(list@, ev@.len() as nat),
    ensures
        r@.map_values(|x: usize| x as int) == overlapping(events_view(ev@), list@, e@),
        forall|i: int| 0 <= i < r@.len() ==> #[trigger] r@[i] < list@.len(),
{
    let ghost evs = events_view(ev@);
    let mut out: Vec<usize> = Vec::new();
    let mut i: usize = 0;
    while i < list.len()
        invariant
            i <= list@.len(),
            evs == events_view(ev@),
            pending_within(list@, ev@.len() as nat),
            out@.map_values(|x: usize| x as int) == overlapping(evs, list@.take(i as int), e@),
            forall|j: int| 0 <= j < out@.len() ==> #[trigger] out@[j] < i,
        decreases list@.len() - i,
    {
        let p = list[i];
        proof {
            assert(list@.take(i + 1).drop_last() == list@.take(i as int));
            assert(list@.take(i + 1).last() == p);
            assert(evs[p.issue as int] == ev@[p.issue as int]@);
        }
        if ev[p.issue].overlaps(e) {
            out.push(i);
            assert(out@.map_values(|x: usize| x as int) =~= overlapping(evs, list@.take(i as int), e@).push(i as int));
        }
        i += 1;
    }
    assert(list@.take(list@.len() as int) == list@);
    out
}

fn overlapping_insert_positions(ev: &Vec<BlockEvent>, list: &Vec<usize>, e: &BlockEvent) -> (r: Vec<usize>)
    requires
        inserts_within(list@, ev@.len() as nat),
    ensures
        r@.map_values(|x: usize| x as int) == overlapping_inserts(events_view(ev@), list@, e@),
        forall|i: int| 0 <= i < r@.len() ==> #[trigger] r@[i] < list@.len(),
{
    let ghost evs = events_view(ev@);
    let mut out: Vec<usize> = Vec::new();
    let mut i: usize = 0;
    while i < list.len()
        invariant
            i <= list@.len(),
            evs == events_view(ev@),
            inserts_within(list@, ev@.len() as nat),
            out@.map_values(|x: usize| x as int) == overlapping_inserts(evs, list@.take(i as int), e@),
            forall|j: int| 0 <= j < out@.len() ==> #[trigger] out@[j] < i,
        decreases list@.len() - i,
    {
        let x = list[i];
        proof {
            assert(list@.take(i + 1).drop_last() == list@.take(i as int));
            assert(list@.take(i + 1).last() == x);
            assert(evs[x as int] == ev@[x as int]@);
        }
        if ev[x].overlaps(e) {
            out.push(i);
            assert(out@.map_values(|x: usize| x as int) =~= overlapping_inserts(evs, list@.take(i as int), e@).push(i as int));
        }
        i += 1;
    }
    assert(list@.take(list@.len() as int) == list@);
    out
}

fn mark_overlaps(ev: &Vec<BlockEvent>, list: &mut Vec<Pending>, e: &BlockEvent)
    requires
        pending_within(old(list)@, ev@.len() as nat),
    ensures
        final(list)@ == mark_overlapping(events_view(ev@), old(list)@, e@),
        pending_within(final(list)@, ev@.len() as nat),
{
    let ghost evs = events_view(ev@);
    let mut i: usize = 0;
    while i < list.len()
        invariant
            i <= list@.len(),
            list@.len() == old(list)@.len(),
            evs == events_view(ev@),
            pending_within(old(list)@, ev@.len() as nat),
            forall|j: int| 0 <= j < i ==> list@[j] == mark_overlapping(evs, old(list)@, e@)[j],
            forall|j: int| i <= j < list@.len() ==> list@[j] == old(list)@[j],
        decreases list@.len() - i,
    {
        let p = list[i];
        assert(evs[p.issue as int] == ev@[p.issue as int]@);
        if ev[p.issue].overlaps(e) {
            list.set(i, Pending { issue: p.issue, insert: p.insert, compromised: true });
        }
        i += 1;
    }
    assert(list@ =~= mark_overlapping(evs, old(list)@, e@));
}

fn limited_contains(limited: &Vec<CorrelationKey>, k: CorrelationKey) -> (r: bool)
    ensures
        r == limited@.contains(k),
{
    let mut i: usize = 0;
    while i < limited.len()
        invariant
            i <= limited@.len(),
            forall|j: int| 0 <= j < i ==> limited@[j] != k,
        decreases limited@.len() - i,
    {
        if same_key(limited[i], k) {
            assert(limited@[i as int] == k);
            return true;
        }
        i += 1;
    }
    false
}

fn record_issue_ids(ev: &Vec<BlockEvent>, list: &Vec<Pending>, out: &mut Vec<u64>)
    requires
        pending_within(list@, ev@.len() as nat),
    ensures
        final(out)@ == old(out)@ + issue_ids(events_view(ev@), list@),
{
    let ghost evs = events_view(ev@);
    let mut i: usize = 0;
    while i < list.len()
        invariant
            i <= list@.len(),
            evs == events_view(ev@),
            pending_within(list@, ev@.len() as nat),
            out@ == old(out)@ + issue_ids(evs, list@.take(i as int)),
        decreases list@.len() - i,
    {
        let id = ev[list[i].issue].record_id;
        assert(evs[list@[i as int].issue as int] == ev@[list@[i as int].issue as int]@);
        out.push(id);
        assert(issue_ids(evs, list@.take(i + 1)) =~= issue_ids(evs, list@.take(i as int)).push(id));
        i += 1;
    }
    assert(list@.take(list@.len() as int) == list@);
}

fn record_insert_ids(ev: &Vec<BlockEvent>, list: &Vec<usize>, out: &mut Vec<u64>)
    requires
        inserts_within(list@, ev@.len() as nat),
    ensures
        final(out)@ == old(out)@ + insert_ids(events_view(ev@), list@),
{
    let ghost evs = events_view(ev@);
    let mut i: usize = 0;
    while i < list.len()
        invariant
            i <= list@.len(),
            evs == events_view(ev@),
            inserts_within(list@, ev@.len() as nat),
            out@ == old(out)@ + insert_ids(evs, list@.take(i as int)),
        decreases list@.len() - i,
    {
        let id = ev[list[i]].record_id;
        assert(evs[list@[i as int] as int] == ev@[list@[i as int] as int]@);
        out.push(id);
        assert(insert_ids(evs, list@.take(i + 1)) =~= insert_ids(evs, list@.take(i as int)).push(id));
        i += 1;
    }
    assert(list@.take(list@.len() as int) == list@);
}

fn text_of(which: u8) -> (s: String)
    requires
        which < 9,
    ensures
        which == 0 ==> s@ == unresolved_text(),
        which == 1 ==> s@ == probable_text(),
        which == 2 ==> s@ == no_candidate_reason(),
        which == 3 ==> s@ == ambiguous_reason(),
        which == 4 ==> s@ == lossy_trace_reason(),
        which == 5 ==> s@ == clock_reason(),
        which == 6 ==> s@ == order_reason(),
        which == 7 ==> s@ == probable_reason(),
        which == 8 ==> s@ == multiple_reason(),
{
    let mut out: Vec<char> = Vec::new();
    if which == 0 {
        push_str(&mut out, "Unresolved");
    } else if which == 1 {
        push_str(&mut out, "Probable");
    } else if which == 2 {
        push_str(&mut out, "No observed issue candidate; raw completion volume and address retained");
    } else if which == 3 {
        push_str(&mut out, "Overlapping, repeated, partial or requeued request; timing and issuer unresolved");
    } else if which == 4 {
        push_str(&mut out, "Trace loss, corruption or projection limit makes issue/completion matching unreliable");
    } else if which == 5 {
        push_str(&mut out, "Unsupported ftrace clock; cross-CPU timing is unavailable");
    } else if which == 6 {
        push_str(&mut out, "Equal or reversed timestamps do not establish event order");
    } else if which == 7 {
        push_str(&mut out, "Unique observed device/sector/size/direction match; Perfetto provides no kernel request ID. FilePath unavailable");
    } else {
        push_str(&mut out, "Multiple overlapping issue candidates; no arbitrary issuer or latency assigned");
    }
    string_from_chars(out.as_slice())
}

/// Storing a queue keeps a property that every queue, and the stored one, has.
proof fn lemma_within_after_store<T>(keys: Seq<CorrelationKey>, lists: Seq<Seq<T>>, k: CorrelationKey, list: Seq<T>, good: spec_fn(Seq<T>) -> bool)
    requires
        keys.len() == lists.len(),
        forall|i: int| 0 <= i < lists.len() ==> #[trigger] good(lists[i]),
        good(list),
    ensures
        forall|i: int| 0 <= i < store_queue(keys, lists, k, list).1.len() ==> #[trigger] good(store_queue(keys, lists, k, list).1[i]),
        store_queue(keys, lists, k, list).0.len() == store_queue(keys, lists, k, list).1.len(),
{
    lemma_lower_pos_bound(keys, k);
    let r = store_queue(keys, lists, k, list).1;
    let pos = lower_pos(keys, k) as int;
    assert forall|i: int| 0 <= i < r.len() implies #[trigger] good(r[i]) by {
        if has_key(keys, k) {
            if i != pos {
                assert(r[i] == lists[i]);
            }
        } else {
            if i < pos {
                assert(r[i] == lists[i]);
            } else if i > pos {
                assert(r[i] == lists[i - 1]);
            }
        }
    }
}

/// A stored queue has a property that every queue has.
proof fn lemma_queue_good<T>(keys: Seq<CorrelationKey>, lists: Seq<Seq<T>>, k: CorrelationKey, good: spec_fn(Seq<T>) -> bool)
    requires
        keys.len() == lists.len(),
        forall|i: int| 0 <= i < lists.len() ==> #[trigger] good(lists[i]),
        good(seq![]),
    ensures
        good(queue_of(keys, lists, k)),
{
    lemma_lower_pos_bound(keys, k);
}

struct Correlator {
    pending_keys: Vec<CorrelationKey>,
    pending: Vec<Vec<Pending>>,
    inserted_keys: Vec<CorrelationKey>,
    inserted: Vec<Vec<usize>>,
    limited: Vec<CorrelationKey>,
    out: BlockAnalysis,
}

impl Correlator {
    spec fn state(&self) -> CorrelationState {
        CorrelationState {
            pending_keys: self.pending_keys@,
            pending: lists_view(self.pending@),
            inserted_keys: self.inserted_keys@,
            inserted: lists_view(self.inserted@),
            limited: self.limited@,
            out: self.out@,
        }
    }

    spec fn within(&self, n: nat) -> bool {
        &&& self.pending_keys@.len() == self.pending@.len()
        &&& self.inserted_keys@.len() == self.inserted@.len()
        &&& forall|i: int| 0 <= i < self.pending@.len() ==> pending_within(#[trigger] lists_view(self.pending@)[i], n)
        &&& forall|i: int| 0 <= i < self.inserted@.len() ==> inserts_within(#[trigger] lists_view(self.inserted@)[i], n)
    }

    fn note_limit(&mut self, k: CorrelationKey)
        ensures
            final(self).state() == note_limit(old(self).state(), k),
            final(self).pending@ == old(self).pending@,
            final(self).inserted@ == old(self).inserted@,
            final(self).pending_keys@ == old(self).pending_keys@,
            final(self).inserted_keys@ == old(self).inserted_keys@,
    {
        if !limited_contains(&self.limited, k) {
            self.limited.push(k);
        }
        self.out.correlation_limit_hits = self.out.correlation_limit_hits.saturating_add(1);
        assert(self.state() =~= note_limit(old(self).state(), k));
    }

    fn take_inserted(&mut self, k: CorrelationKey) -> (r: (usize, bool, Vec<usize>))
        requires
            old(self).inserted_keys@.len() == old(self).inserted@.len(),
        ensures
            r.0 as nat == lower_pos(old(self).inserted_keys@, k),
            r.0 <= old(self).inserted_keys@.len(),
            r.1 == has_key(old(self).inserted_keys@, k),
            r.2@ == queue_of(old(self).inserted_keys@, lists_view(old(self).inserted@), k),
            final(self).inserted@ == if r.1 { old(self).inserted@.remove(r.0 as int) } else { old(self).inserted@ },
            final(self).inserted_keys@ == old(self).inserted_keys@,
            final(self).pending@ == old(self).pending@,
            final(self).pending_keys@ == old(self).pending_keys@,
            final(self).limited@ == old(self).limited@,
            final(self).out@ == old(self).out@,
    {
        take_queue(&self.inserted_keys, &mut self.inserted, k)
    }

    fn take_pending(&mut self, k: CorrelationKey) -> (r: (usize, bool, Vec<Pending>))
        requires
            old(self).pending_keys@.len() == old(self).pending@.len(),
        ensures
            r.0 as nat == lower_pos(old(self).pending_keys@, k),
            r.0 <= old(self).pending_keys@.len(),
            r.1 == has_key(old(self).pending_keys@, k),
            r.2@ == queue_of(old(self).pending_keys@, lists_view(old(self).pending@), k),
            final(self).pending@ == if r.1 { old(self).pending@.remove(r.0 as int) } else { old(self).pending@ },
            final(self).pending_keys@ == old(self).pending_keys@,
            final(self).inserted@ == old(self).inserted@,
            final(self).inserted_keys@ == old(self).inserted_keys@,
            final(self).limited@ == old(self).limited@,
            final(self).out@ == old(self).out@,
    {
        take_queue(&self.pending_keys, &mut self.pending, k)
    }

    fn insert_event(&mut self, ev: &Vec<BlockEvent>, k: CorrelationKey, n: usize)
        requires
            old(self).within(n as nat),
            n < ev@.len(),
            k == event_key(events_view(ev@)[n as int]),
        ensures
            final(self).state() == insert_step(events_view(ev@), old(self).state(), n as int),
            final(self).within(n as nat + 1),
    {
        let ghost evs = events_view(ev@);
        let ghost before = self.inserted@;
        proof {
            lemma_queue_good(self.inserted_keys@, lists_view(before), k, |q: Seq<usize>| inserts_within(q, n as nat));
        }
        let (pos, found, mut list) = self.take_inserted(k);
        if list.len() >= MAX_PENDING_PER_DEVICE {
            record_insert_ids(ev, &list, &mut self.out.orphan_insert_records);
            self.note_limit(k);
            list = Vec::new();
            list.push(n);
        } else {
            list.push(n);
        }
        let ghost l = list@;
        put_queue(&mut self.inserted_keys, &mut self.inserted, k, (pos, found), list, Ghost(before));
        proof {
            assert(self.state() =~= insert_step(evs, old(self).state(), n as int));
            lemma_within_after_store(old(self).inserted_keys@, lists_view(before), k, l, |q: Seq<usize>| inserts_within(q, n as nat + 1));
        }
    }

    fn issue_event(&mut self, ev: &Vec<BlockEvent>, k: CorrelationKey, n: usize)
        requires
            old(self).within(n as nat),
            n < ev@.len(),
            k == event_key(events_view(ev@)[n as int]),
        ensures
            final(self).state() == issue_step(events_view(ev@), old(self).state(), n as int),
            final(self).within(n as nat + 1),
    {
        let ghost evs = events_view(ev@);
        let e = &ev[n];
        assert(evs[n as int] == e@);
        let ghost ins_before = self.inserted@;
        proof {
            lemma_queue_good(self.inserted_keys@, lists_view(ins_before), k, |q: Seq<usize>| inserts_within(q, n as nat));
        }
        let (ipos, ifound, mut ins) = self.take_inserted(k);
        let ghost ins0 = ins@;
        let m = overlapping_insert_positions(ev, &ins, e);
        let ghost ms = m@.map_values(|x: usize| x as int);
        let claims = m.len() == 1 && ev[ins[m[0]]].same_range(e);
        proof {
            if m.len() == 1 {
                assert(ms[0] == m@[0] as int);
                assert(evs[ins0[ms[0]] as int] == ev@[ins0[ms[0]] as int]@);
            }
        }
        let insert: Option<usize> = if claims { Some(ins.remove(m[0])) } else { None };
        let ghost il = ins@;
        put_queue(&mut self.inserted_keys, &mut self.inserted, k, (ipos, ifound), ins, Ghost(ins_before));
        proof {
            lemma_within_after_store(old(self).inserted_keys@, lists_view(ins_before), k, il, |q: Seq<usize>| inserts_within(q, n as nat + 1));
        }
        let ghost st1 = self.state();
        assert(st1 =~= with_inserted(old(self).state(), k, if claims { ins0.remove(ms[0]) } else { ins0 }));
        let ghost pend_before = self.pending@;
        proof {
            lemma_queue_good(self.pending_keys@, lists_view(pend_before), k, |q: Seq<Pending>| pending_within(q, n as nat));
        }
        let (ppos, pfound, mut list) = self.take_pending(k);
        let ghost list0 = list@;
        let cands = overlapping_positions(ev, &list, e);
        let clash = cands.len() > 0;
        mark_overlaps(ev, &mut list, e);
        let mut compromised = limited_contains(&self.limited, k) || clash;
        if list.len() >= MAX_PENDING_PER_DEVICE {
            record_issue_ids(ev, &list, &mut self.out.unmatched_issue_records);
            self.note_limit(k);
            list = Vec::new();
            compromised = true;
        }
        list.push(Pending { issue: n, insert, compromised });
        let ghost pl = list@;
        put_queue(&mut self.pending_keys, &mut self.pending, k, (ppos, pfound), list, Ghost(pend_before));
        proof {
            assert(self.state() =~= issue_step(evs, old(self).state(), n as int));
            lemma_within_after_store(st1.pending_keys, lists_view(pend_before), k, pl, |q: Seq<Pending>| pending_within(q, n as nat + 1));
        }
    }

    fn requeue_event(&mut self, ev: &Vec<BlockEvent>, k: CorrelationKey, n: usize)
        requires
            old(self).within(n as nat),
            n < ev@.len(),
            k == event_key(events_view(ev@)[n as int]),
        ensures
            final(self).state() == requeue_step(events_view(ev@), old(self).state(), n as int),
            final(self).within(n as nat + 1),
    {
        let ghost evs = events_view(ev@);
        let e = &ev[n];
        assert(evs[n as int] == e@);
        let ghost pend_before = self.pending@;
        proof {
            lemma_queue_good(self.pending_keys@, lists_view(pend_before), k, |q: Seq<Pending>| pending_within(q, n as nat));
        }
        let (ppos, pfound, mut list) = self.take_pending(k);
        let cands = overlapping_positions(ev, &list, e);
        if cands.len() == 0 {
            self.out.unpaired_requeue_records.push(e.record_id);
        }
        mark_overlaps(ev, &mut list, e);
        let ghost pl = list@;
        put_queue(&mut self.pending_keys, &mut self.pending, k, (ppos, pfound), list, Ghost(pend_before));
        proof {
            assert(self.state() =~= requeue_step(evs, old(self).state(), n as int));
            lemma_within_after_store(old(self).pending_keys@, lists_view(pend_before), k, pl, |q: Seq<Pending>| pending_within(q, n as nat + 1));
        }
    }

    fn complete_event(&mut self, ev: &Vec<BlockEvent>, quality: &TraceQuality, k: CorrelationKey, n: usize)
        requires
            old(self).within(n as nat),
            n < ev@.len(),
            k == event_key(events_view(ev@)[n as int]),
        ensures
            final(self).state() == complete_step(events_view(ev@), quality@, old(self).state(), n as int),
            final(self).within(n as nat + 1),
    {
        let ghost evs = events_view(ev@);
        let e = &ev[n];
        assert(evs[n as int] == e@);
        let ghost pend_before = self.pending@;
        proof {
            lemma_queue_good(self.pending_keys@, lists_view(pend_before), k, |q: Seq<Pending>| pending_within(q, n as nat));
        }
        let (ppos, pfound, mut list) = self.take_pending(k);
        let ghost list0 = list@;
        let cands = overlapping_positions(ev, &list, e);
        let ghost cs = cands@.map_values(|x: usize| x as int);
        let mut ids: Vec<u64> = Vec::new();
        let mut c: usize = 0;
        while c < cands.len()
            invariant
                c <= cands@.len(),
                cs == cands@.map_values(|x: usize| x as int),
                list@ == list0,
                evs == events_view(ev@),
                pending_within(list0, n as nat),
                n < ev@.len(),
                forall|i: int| 0 <= i < cands@.len() ==> #[trigger] cands@[i] < list0.len(),
                ids@ == cs.take(c as int).map_values(|i: int| evs[list0[i].issue as int].record_id),
            decreases cands@.len() - c,
        {
            let p = list[cands[c]];
            assert(list0[cands@[c as int] as int] == p);
            assert(p.issue < n);
            assert(evs[p.issue as int] == ev@[p.issue as int]@);
            ids.push(ev[p.issue].record_id);
            assert(cs.take(c + 1).map_values(|i: int| evs[list0[i].issue as int].record_id)
                =~= cs.take(c as int).map_values(|i: int| evs[list0[i].issue as int].record_id).push(ev@[p.issue as int].record_id));
            c += 1;
        }
        assert(cs.take(cs.len() as int) == cs);
        let ghost base = base_observation(e@, ids@);
        let mut obs = BlockObservation {
            completion_record: e.record_id,
            timestamp_ns: e.timestamp_ns,
            device_encoded: e.device_encoded,
            sector: e.sector,
            bytes: e.bytes,
            rwbs: e.rwbs.clone(),
            error: e.error,
            clock: e.clock,
            issue_candidates: ids,
            issue_timestamp_ns: None,
            issuer_tid: None,
            issuer_comm: None,
            device_latency_ns: None,
            queue_latency_ns: None,
            timing_confidence: text_of(0),
            reason: text_of(2),
        };
        assert(obs@ =~= base);
        if cands.len() == 1 {
            let c0 = cands[0];
            let p = list[c0];
            let issue = &ev[p.issue];
            assert(evs[p.issue as int] == issue@);
            let exact = issue.same_range(e);
            if p.compromised || !exact {
                obs.reason = text_of(3);
            } else if quality.compromised() {
                obs.reason = text_of(4);
            } else if e.clock != 0 || issue.clock != 0 {
                obs.reason = text_of(5);
            } else if e.timestamp_ns <= issue.timestamp_ns {
                obs.reason = text_of(6);
            } else {
                obs.issue_timestamp_ns = Some(issue.timestamp_ns);
                obs.issuer_tid = issue.tid;
                obs.issuer_comm = crate::perfetto::clone_opt_string(&issue.comm);
                obs.device_latency_ns = Some(e.timestamp_ns - issue.timestamp_ns);
                obs.queue_latency_ns = match p.insert {
                    Some(i) => {
                        assert(evs[i as int] == ev@[i as int]@);
                        if ev[i].clock == 0 && ev[i].timestamp_ns < issue.timestamp_ns {
                            Some(issue.timestamp_ns - ev[i].timestamp_ns)
                        } else {
                            None
                        }
                    }
                    None => None,
                };
                obs.timing_confidence = text_of(1);
                obs.reason = text_of(7);
            }
            assert(obs@ =~= unique_observation(evs, quality@, base, p, e@));
            if exact {
                list.remove(c0);
            } else {
                list.set(c0, Pending { issue: p.issue, insert: p.insert, compromised: true });
            }
        } else if cands.len() > 1 {
            obs.reason = text_of(8);
            mark_overlaps(ev, &mut list, e);
        }
        let ghost ov = obs@;
        self.out.completions.push(obs);
        assert(observations_view(self.out.completions@) =~= observations_view(old(self).out.completions@).push(ov));
        let ghost pl = list@;
        proof {
            assert(pending_within(pl, n as nat + 1)) by {
                assert forall|i: int| 0 <= i < pl.len() implies (#[trigger] pl[i]).issue < n + 1 && (pl[i].insert matches Some(x) ==> x < n + 1) by {
                    if cands@.len() == 1 {
                        let c0 = cands@[0] as int;
                        if list0.len() > pl.len() {
                            if i < c0 { assert(pl[i] == list0[i]); } else { assert(pl[i] == list0[i + 1]); }
                        } else {
                            if i != c0 { assert(pl[i] == list0[i]); }
                        }
                    }
                }
            }
        }
        put_queue(&mut self.pending_keys, &mut self.pending, k, (ppos, pfound), list, Ghost(pend_before));
        proof {
            assert(self.state() =~= complete_step(evs, quality@, old(self).state(), n as int));
            lemma_within_after_store(old(self).pending_keys@, lists_view(pend_before), k, pl, |q: Seq<Pending>| pending_within(q, n as nat + 1));
        }
    }
}



/// Correlates a decoded trace's block events in trace order.
pub fn analyze(trace: &DecodedTrace) -> (r: BlockAnalysis)
    ensures
        r@ == spec_analyze(trace@),
{
    let ev = &trace.events;
    let ghost evs = events_view(ev@);
    let ghost q = trace.quality@;
    let mut c = Correlator {
        pending_keys: Vec::new(),
        pending: Vec::new(),
        inserted_keys: Vec::new(),
        inserted: Vec::new(),
        limited: Vec::new(),
        out: BlockAnalysis {
            completions: Vec::new(),
            unmatched_issue_records: Vec::new(),
            orphan_insert_records: Vec::new(),
            unpaired_requeue_records: Vec::new(),
            correlation_limit_hits: 0,
        },
    };
    assert(c.state() =~= initial_state());
    let mut n: usize = 0;
    while n < ev.len()
        invariant
            n <= ev@.len(),
            evs == events_view(ev@),
            evs == trace@.events,
            q == trace.quality@,
            c.within(n as nat),
            c.state() == correlate_prefix(evs, q, n as nat),
        decreases ev@.len() - n,
    {
        let e = &ev[n];
        assert(evs[n as int] == e@);
        let k: CorrelationKey = (e.device_encoded, e.operation());
        match e.kind {
            BlockKind::Insert => c.insert_event(ev, k, n),
            BlockKind::Issue => c.issue_event(ev, k, n),
            BlockKind::Requeue => c.requeue_event(ev, k, n),
            BlockKind::Complete => c.complete_event(ev, &trace.quality, k, n),
        }
        n += 1;
    }
    let ghost st = c.state();
    let ghost pend = lists_view(c.pending@);
    let ghost ins = lists_view(c.inserted@);
    let mut i: usize = 0;
    while i < c.pending.len()
        invariant
            i <= c.pending@.len(),
            pend == lists_view(c.pending@),
            evs == events_view(ev@),
            c.within(ev@.len() as nat),
            c.out@.unmatched_issue_records == st.out.unmatched_issue_records + pend.take(i as int).map_values(|l: Seq<Pending>| issue_ids(evs, l)).flatten(),
            c.out@.completions == st.out.completions,
            c.out@.orphan_insert_records == st.out.orphan_insert_records,
            c.out@.unpaired_requeue_records == st.out.unpaired_requeue_records,
            c.out@.correlation_limit_hits == st.out.correlation_limit_hits,
            lists_view(c.inserted@) == ins,
        decreases c.pending@.len() - i,
    {
        assert(pending_within(pend[i as int], ev@.len() as nat));
        assert(pend[i as int] == c.pending@[i as int]@);
        record_issue_ids(ev, &c.pending[i], &mut c.out.unmatched_issue_records);
        proof {
            let f = |l: Seq<Pending>| issue_ids(evs, l);
            assert(pend.take(i + 1).map_values(f) =~= pend.take(i as int).map_values(f).push(f(pend[i as int])));
            pend.take(i as int).map_values(f).lemma_flatten_push(f(pend[i as int]));
        }
        i += 1;
    }
    assert(pend.take(pend.len() as int) == pend);
    let mut j: usize = 0;
    while j < c.inserted.len()
        invariant
            j <= c.inserted@.len(),
            ins == lists_view(c.inserted@),
            evs == events_view(ev@),
            c.within(ev@.len() as nat),
            c.out@.orphan_insert_records == st.out.orphan_insert_records + ins.take(j as int).map_values(|l: Seq<usize>| insert_ids(evs, l)).flatten(),
            c.out@.completions == st.out.completions,
            c.out@.unmatched_issue_records == st.out.unmatched_issue_records + pend.map_values(|l: Seq<Pending>| issue_ids(evs, l)).flatten(),
            c.out@.unpaired_requeue_records == st.out.unpaired_requeue_records,
            c.out@.correlation_limit_hits == st.out.correlation_limit_hits,
        decreases c.inserted@.len() - j,
    {
        assert(inserts_within(ins[j as int], ev@.len() as nat));
        assert(ins[j as int] == c.inserted@[j as int]@);
        record_insert_ids(ev, &c.inserted[j], &mut c.out.orphan_insert_records);
        proof {
            let f = |l: Seq<usize>| insert_ids(evs, l);
            assert(ins.take(j + 1).map_values(f) =~= ins.take(j as int).map_values(f).push(f(ins[j as int])));
            ins.take(j as int).map_values(f).lemma_flatten_push(f(ins[j as int]));
        }
        j += 1;
    }
    assert(ins.take(ins.len() as int) == ins);
    assert(c.out@ =~= spec_analyze(trace@));
    c.out
}

// ---------------------------------------------------------------------------
// Laws of the correlation.

/// The completion events of a sequence, in order.
pub open spec fn complete_events(evs: Seq<EventView>) -> Seq<EventView>
    decreases evs.len(),
{
    if evs.len() == 0 {
        seq![]
    } else if evs.last().kind == BlockKind::Complete {
        complete_events(evs.drop_last()).push(evs.last())
    } else {
        complete_events(evs.drop_last())
    }
}

/// An observation carries its completion's own record, time, address,
/// volume, direction flags, status and clock.
pub open spec fn describes(o: ObservationView, e: EventView) -> bool {
    &&& o.completion_record == e.record_id
    &&& o.timestamp_ns == e.timestamp_ns
    &&& o.device_encoded == e.device_encoded
    &&& o.sector == e.sector
    &&& o.bytes == e.bytes
    &&& o.rwbs == e.rwbs
    &&& o.error == e.error
    &&& o.clock == e.clock
}

/// Timing is either Probable, with one candidate issue strictly before the
/// completion on the boot clock in a trace with no loss evidence, or
/// Unresolved with no issuer, issue time or latency at all.
pub open spec fn timing_sound(o: ObservationView, q: QualityView) -> bool {
    if o.device_latency_ns is Some {
        &&& o.timing_confidence == probable_text()
        &&& o.issue_candidates.len() == 1
        &&& o.clock == 0
        &&& !quality_compromised(q)
        &&& o.issue_timestamp_ns matches Some(ts) && ts < o.timestamp_ns
            && o.device_latency_ns == Some((o.timestamp_ns - ts) as u64)
    } else {
        &&& o.timing_confidence == unresolved_text()
        &&& o.issue_timestamp_ns is None
        &&& o.issuer_tid is None
        &&& o.issuer_comm is None
        &&& o.queue_latency_ns is None
    }
}

proof fn lemma_prefix_completions(evs: Seq<EventView>, q: QualityView, n: nat)
    requires
        n <= evs.len(),
    ensures
        correlate_prefix(evs, q, n).out.completions.len() == complete_events(evs.take(n as int)).len(),
        forall|i: int| 0 <= i < correlate_prefix(evs, q, n).out.completions.len() ==> {
            &&& describes(#[trigger] correlate_prefix(evs, q, n).out.completions[i], complete_events(evs.take(n as int))[i])
            &&& timing_sound(correlate_prefix(evs, q, n).out.completions[i], q)
        },
    decreases n,
{
    if n > 0 {
        let m = (n - 1) as nat;
        lemma_prefix_completions(evs, q, m);
        let prev = correlate_prefix(evs, q, m);
        let cur = correlate_prefix(evs, q, n);
        assert(evs.take(n as int).drop_last() == evs.take(m as int));
        assert(evs.take(n as int).last() == evs[m as int]);
        let e = evs[m as int];
        if e.kind == BlockKind::Complete {
            let k = event_key(e);
            let list = queue_of(prev.pending_keys, prev.pending, k);
            let cands = overlapping(evs, list, e);
            let base = base_observation(e, cands.map_values(|i: int| evs[list[i].issue as int].record_id));
            let obs = cur.out.completions.last();
            assert(cur.out.completions == prev.out.completions.push(obs));
            if cands.len() == 1 {
                assert(obs == unique_observation(evs, q, base, list[cands[0]], e));
            }
            assert(timing_sound(obs, q));
            assert forall|i: int| 0 <= i < cur.out.completions.len() implies {
                &&& describes(#[trigger] cur.out.completions[i], complete_events(evs.take(n as int))[i])
                &&& timing_sound(cur.out.completions[i], q)
            } by {
                if i < prev.out.completions.len() {
                    assert(cur.out.completions[i] == prev.out.completions[i]);
                }
            }
        } else {
            assert(cur.out.completions == prev.out.completions);
        }
    }
}

/// Every completion record yields exactly one observation, in trace order,
/// describing that completion; none is dropped for lacking an issue match.
/// Each observation's timing is sound: a latency is given only for a unique
/// candidate issue strictly earlier on the boot clock of a loss-free trace,
/// and is then exactly the completion time minus the issue time; otherwise
/// no issuer, issue time or latency is given. Confidence is never Exact.
pub proof fn law_one_sound_observation_per_completion(t: TraceView)
    ensures
        spec_analyze(t).completions.len() == complete_events(t.events).len(),
        forall|i: int| 0 <= i < spec_analyze(t).completions.len() ==> {
            &&& describes(#[trigger] spec_analyze(t).completions[i], complete_events(t.events)[i])
            &&& timing_sound(spec_analyze(t).completions[i], t.quality)
        },
{
    lemma_prefix_completions(t.events, t.quality, t.events.len());
    assert(t.events.take(t.events.len() as int) == t.events);
}

/// `id` is the record number of an event of the given kind in the trace.
pub open spec fn names_record(evs: Seq<EventView>, id: u64, kind: BlockKind) -> bool {
    exists|j: int| 0 <= j < evs.len() && (#[trigger] evs[j]).kind == kind && evs[j].record_id == id
}

pub open spec fn all_name(evs: Seq<EventView>, ids: Seq<u64>, kind: BlockKind) -> bool {
    forall|i: int| 0 <= i < ids.len() ==> names_record(evs, #[trigger] ids[i], kind)
}

pub open spec fn pending_ok(evs: Seq<EventView>, l: Seq<Pending>) -> bool {
    forall|j: int| 0 <= j < l.len() ==> {
        &&& (#[trigger] l[j]).issue < evs.len()
        &&& evs[l[j].issue as int].kind == BlockKind::Issue
        &&& (l[j].insert matches Some(x) ==> x < evs.len() && evs[x as int].kind == BlockKind::Insert)
    }
}

pub open spec fn inserted_ok(evs: Seq<EventView>, l: Seq<usize>) -> bool {
    forall|j: int| 0 <= j < l.len() ==> (#[trigger] l[j]) < evs.len() && evs[l[j] as int].kind == BlockKind::Insert
}

pub open spec fn refs_ok(evs: Seq<EventView>, st: CorrelationState) -> bool {
    &&& st.pending_keys.len() == st.pending.len()
    &&& st.inserted_keys.len() == st.inserted.len()
    &&& forall|i: int| 0 <= i < st.pending.len() ==> pending_ok(evs, #[trigger] st.pending[i])
    &&& forall|i: int| 0 <= i < st.inserted.len() ==> inserted_ok(evs, #[trigger] st.inserted[i])
    &&& all_name(evs, st.out.unmatched_issue_records, BlockKind::Issue)
    &&& all_name(evs, st.out.orphan_insert_records, BlockKind::Insert)
    &&& all_name(evs, st.out.unpaired_requeue_records, BlockKind::Requeue)
    &&& forall|i: int| 0 <= i < st.out.completions.len() ==> all_name(evs, (#[trigger] st.out.completions[i]).issue_candidates, BlockKind::Issue)
}

proof fn lemma_all_name_concat(evs: Seq<EventView>, a: Seq<u64>, b: Seq<u64>, kind: BlockKind)
    requires
        all_name(evs, a, kind),
        all_name(evs, b, kind),
    ensures
        all_name(evs, a + b, kind),
{
    assert forall|i: int| 0 <= i < (a + b).len() implies names_record(evs, #[trigger] (a + b)[i], kind) by {
        if i < a.len() {
            assert((a + b)[i] == a[i]);
        } else {
            assert((a + b)[i] == b[i - a.len()]);
        }
    }
}

proof fn lemma_issue_ids_name(evs: Seq<EventView>, l: Seq<Pending>)
    requires
        pending_ok(evs, l),
    ensures
        all_name(evs, issue_ids(evs, l), BlockKind::Issue),
{
    assert forall|i: int| 0 <= i < issue_ids(evs, l).len() implies names_record(evs, #[trigger] issue_ids(evs, l)[i], BlockKind::Issue) by {
        let j = l[i].issue as int;
        assert(evs[j].kind == BlockKind::Issue);
    }
}

proof fn lemma_insert_ids_name(evs: Seq<EventView>, l: Seq<usize>)
    requires
        inserted_ok(evs, l),
    ensures
        all_name(evs, insert_ids(evs, l), BlockKind::Insert),
{
    assert forall|i: int| 0 <= i < insert_ids(evs, l).len() implies names_record(evs, #[trigger] insert_ids(evs, l)[i], BlockKind::Insert) by {
        let j = l[i] as int;
        assert(evs[j].kind == BlockKind::Insert);
    }
}

proof fn lemma_flatten_names(evs: Seq<EventView>, ss: Seq<Seq<u64>>, kind: BlockKind)
    requires
        forall|i: int| 0 <= i < ss.len() ==> all_name(evs, #[trigger] ss[i], kind),
    ensures
        all_name(evs, ss.flatten(), kind),
    decreases ss.len(),
{
    if ss.len() > 0 {
        let init = ss.drop_last();
        assert forall|i: int| 0 <= i < init.len() implies all_name(evs, #[trigger] init[i], kind) by {
            assert(init[i] == ss[i]);
        }
        lemma_flatten_names(evs, init, kind);
        init.lemma_flatten_push(ss.last());
        assert(init.push(ss.last()) == ss);
        lemma_all_name_concat(evs, init.flatten(), ss.last(), kind);
    }
}

proof fn lemma_mark_ok(evs: Seq<EventView>, l: Seq<Pending>, e: EventView)
    requires
        pending_ok(evs, l),
    ensures
        pending_ok(evs, mark_overlapping(evs, l, e)),
{
    assert forall|j: int| 0 <= j < mark_overlapping(evs, l, e).len() implies {
        &&& (#[trigger] mark_overlapping(evs, l, e)[j]).issue < evs.len()
        &&& evs[mark_overlapping(evs, l, e)[j].issue as int].kind == BlockKind::Issue
        &&& (mark_overlapping(evs, l, e)[j].insert matches Some(x) ==> x < evs.len() && evs[x as int].kind == BlockKind::Insert)
    } by {
        assert(pending_ok(evs, l));
        let p = l[j];
        assert(p.issue < evs.len());
    }
}

proof fn lemma_store_pending_ok(evs: Seq<EventView>, keys: Seq<CorrelationKey>, lists: Seq<Seq<Pending>>, k: CorrelationKey, list: Seq<Pending>)
    requires
        keys.len() == lists.len(),
        forall|i: int| 0 <= i < lists.len() ==> pending_ok(evs, #[trigger] lists[i]),
        pending_ok(evs, list),
    ensures
        store_queue(keys, lists, k, list).0.len() == store_queue(keys, lists, k, list).1.len(),
        forall|i: int| 0 <= i < store_queue(keys, lists, k, list).1.len() ==> pending_ok(evs, #[trigger] store_queue(keys, lists, k, list).1[i]),
{
    let good = |l: Seq<Pending>| pending_ok(evs, l);
    assert forall|i: int| 0 <= i < lists.len() implies #[trigger] good(lists[i]) by {
        assert(pending_ok(evs, lists[i]));
    }
    lemma_within_after_store(keys, lists, k, list, good);
    let stored = store_queue(keys, lists, k, list).1;
    assert forall|i: int| 0 <= i < stored.len() implies pending_ok(evs, #[trigger] stored[i]) by {
        assert(good(stored[i]));
    }
}

proof fn lemma_store_inserted_ok(evs: Seq<EventView>, keys: Seq<CorrelationKey>, lists: Seq<Seq<usize>>, k: CorrelationKey, list: Seq<usize>)
    requires
        keys.len() == lists.len(),
        forall|i: int| 0 <= i < lists.len() ==> inserted_ok(evs, #[trigger] lists[i]),
        inserted_ok(evs, list),
    ensures
        store_queue(keys, lists, k, list).0.len() == store_queue(keys, lists, k, list).1.len(),
        forall|i: int| 0 <= i < store_queue(keys, lists, k, list).1.len() ==> inserted_ok(evs, #[trigger] store_queue(keys, lists, k, list).1[i]),
{
    let good = |l: Seq<usize>| inserted_ok(evs, l);
    assert forall|i: int| 0 <= i < lists.len() implies #[trigger] good(lists[i]) by {
        assert(inserted_ok(evs, lists[i]));
    }
    lemma_within_after_store(keys, lists, k, list, good);
    let stored = store_queue(keys, lists, k, list).1;
    assert forall|i: int| 0 <= i < stored.len() implies inserted_ok(evs, #[trigger] stored[i]) by {
        assert(good(stored[i]));
    }
}

proof fn lemma_step_refs(evs: Seq<EventView>, q: QualityView, st: CorrelationState, n: int)
    requires
        0 <= n < evs.len(),
        evs.len() <= usize::MAX,
        refs_ok(evs, st),
    ensures
        refs_ok(evs, correlate_step(evs, q, st, n)),
{
    let e = evs[n];
    let k = event_key(e);
    lemma_queue_good(st.pending_keys, st.pending, k, |l: Seq<Pending>| pending_ok(evs, l));
    lemma_queue_good(st.inserted_keys, st.inserted, k, |l: Seq<usize>| inserted_ok(evs, l));
    let plist = queue_of(st.pending_keys, st.pending, k);
    let ilist = queue_of(st.inserted_keys, st.inserted, k);
    lemma_mark_ok(evs, plist, e);
    let r = correlate_step(evs, q, st, n);
    match e.kind {
        BlockKind::Insert => {
            lemma_insert_ids_name(evs, ilist);
            lemma_all_name_concat(evs, st.out.orphan_insert_records, insert_ids(evs, ilist), BlockKind::Insert);
            let nl = if ilist.len() >= MAX_PENDING_PER_DEVICE { seq![n as usize] } else { ilist.push(n as usize) };
            assert(inserted_ok(evs, nl)) by {
                assert forall|j: int| 0 <= j < nl.len() implies (#[trigger] nl[j]) < evs.len() && evs[nl[j] as int].kind == BlockKind::Insert by {
                    if ilist.len() < MAX_PENDING_PER_DEVICE && j < ilist.len() {
                        assert(nl[j] == ilist[j]);
                    }
                }
            }
            lemma_store_inserted_ok(evs, st.inserted_keys, st.inserted, k, nl);
            assert(r.pending == st.pending);
        },
        BlockKind::Issue => {
            let m = overlapping_inserts(evs, ilist, e);
            let claims = m.len() == 1 && same_range(evs[ilist[m[0]] as int], e);
            lemma_overlapping_inserts_bound(evs, ilist, e);
            let nil = if claims { ilist.remove(m[0]) } else { ilist };
            assert(inserted_ok(evs, nil)) by {
                if claims {
                    assert forall|j: int| 0 <= j < nil.len() implies (#[trigger] nil[j]) < evs.len() && evs[nil[j] as int].kind == BlockKind::Insert by {
                        if j < m[0] { assert(nil[j] == ilist[j]); } else { assert(nil[j] == ilist[j + 1]); }
                    }
                }
            }
            lemma_store_inserted_ok(evs, st.inserted_keys, st.inserted, k, nil);
            let st1 = with_inserted(st, k, nil);
            lemma_queue_good(st1.pending_keys, st1.pending, k, |l: Seq<Pending>| pending_ok(evs, l));
            let list = queue_of(st1.pending_keys, st1.pending, k);
            lemma_mark_ok(evs, list, e);
            let marked = mark_overlapping(evs, list, e);
            lemma_issue_ids_name(evs, marked);
            lemma_all_name_concat(evs, st1.out.unmatched_issue_records, issue_ids(evs, marked), BlockKind::Issue);
            let insert: Option<usize> = if claims { Some(ilist[m[0]]) } else { None };
            let np = if marked.len() >= MAX_PENDING_PER_DEVICE {
                seq![Pending { issue: n as usize, insert, compromised: true }]
            } else {
                marked.push(Pending { issue: n as usize, insert, compromised: st1.limited.contains(k) || overlapping(evs, list, e).len() > 0 })
            };
            assert(pending_ok(evs, np)) by {
                assert forall|j: int| 0 <= j < np.len() implies {
                    &&& (#[trigger] np[j]).issue < evs.len()
                    &&& evs[np[j].issue as int].kind == BlockKind::Issue
                    &&& (np[j].insert matches Some(x) ==> x < evs.len() && evs[x as int].kind == BlockKind::Insert)
                } by {
                    if marked.len() < MAX_PENDING_PER_DEVICE && j < marked.len() {
                        assert(np[j] == marked[j]);
                    } else {
                        if claims {
                            assert(0 <= m[0] < ilist.len());
                            assert(ilist[m[0]] < evs.len());
                        }
                    }
                }
            }
            lemma_store_pending_ok(evs, st1.pending_keys, st1.pending, k, np);
        },
        BlockKind::Requeue => {
            lemma_store_pending_ok(evs, st.pending_keys, st.pending, k, mark_overlapping(evs, plist, e));
            let st1 = if overlapping(evs, plist, e).len() > 0 { st } else {
                CorrelationState { out: AnalysisView { unpaired_requeue_records: st.out.unpaired_requeue_records.push(e.record_id), ..st.out }, ..st }
            };
            assert(all_name(evs, st1.out.unpaired_requeue_records, BlockKind::Requeue)) by {
                assert forall|i: int| 0 <= i < st1.out.unpaired_requeue_records.len() implies names_record(evs, #[trigger] st1.out.unpaired_requeue_records[i], BlockKind::Requeue) by {
                    if i < st.out.unpaired_requeue_records.len() {
                        assert(st1.out.unpaired_requeue_records[i] == st.out.unpaired_requeue_records[i]);
                    } else {
                        assert(evs[n].kind == BlockKind::Requeue);
                    }
                }
            }
        },
        BlockKind::Complete => {
            let cands = overlapping(evs, plist, e);
            lemma_overlapping_bound(evs, plist, e);
            let ids = cands.map_values(|i: int| evs[plist[i].issue as int].record_id);
            assert(all_name(evs, ids, BlockKind::Issue)) by {
                assert forall|i: int| 0 <= i < ids.len() implies names_record(evs, #[trigger] ids[i], BlockKind::Issue) by {
                    let j = plist[cands[i]].issue as int;
                    assert(evs[j].kind == BlockKind::Issue);
                }
            }
            let nl = if cands.len() == 1 {
                if same_range(evs[plist[cands[0]].issue as int], e) { plist.remove(cands[0]) } else { plist.update(cands[0], Pending { compromised: true, ..plist[cands[0]] }) }
            } else if cands.len() > 1 { mark_overlapping(evs, plist, e) } else { plist };
            assert(pending_ok(evs, nl)) by {
                if cands.len() == 1 {
                    assert forall|j: int| 0 <= j < nl.len() implies {
                        &&& (#[trigger] nl[j]).issue < evs.len()
                        &&& evs[nl[j].issue as int].kind == BlockKind::Issue
                        &&& (nl[j].insert matches Some(x) ==> x < evs.len() && evs[x as int].kind == BlockKind::Insert)
                    } by {
                        if nl.len() < plist.len() {
                            if j < cands[0] { assert(nl[j] == plist[j]); } else { assert(nl[j] == plist[j + 1]); }
                        } else if j != cands[0] {
                            assert(nl[j] == plist[j]);
                        }
                    }
                }
            }
            lemma_store_pending_ok(evs, st.pending_keys, st.pending, k, nl);
            assert forall|i: int| 0 <= i < r.out.completions.len() implies all_name(evs, (#[trigger] r.out.completions[i]).issue_candidates, BlockKind::Issue) by {
                if i < st.out.completions.len() {
                    assert(r.out.completions[i] == st.out.completions[i]);
                }
            }
        },
    }
}

proof fn lemma_overlapping_bound(evs: Seq<EventView>, list: Seq<Pending>, e: EventView)
    ensures
        forall|i: int| 0 <= i < overlapping(evs, list, e).len() ==> 0 <= #[trigger] overlapping(evs, list, e)[i] < list.len(),
    decreases list.len(),
{
    if list.len() > 0 {
        lemma_overlapping_bound(evs, list.drop_last(), e);
        let o = overlapping(evs, list, e);
        let r = overlapping(evs, list.drop_last(), e);
        assert forall|i: int| 0 <= i < o.len() implies 0 <= #[trigger] o[i] < list.len() by {
            if i < r.len() { assert(o[i] == r[i]); }
        }
    }
}

proof fn lemma_overlapping_inserts_bound(evs: Seq<EventView>, list: Seq<usize>, e: EventView)
    ensures
        forall|i: int| 0 <= i < overlapping_inserts(evs, list, e).len() ==> 0 <= #[trigger] overlapping_inserts(evs, list, e)[i] < list.len(),
    decreases list.len(),
{
    if list.len() > 0 {
        lemma_overlapping_inserts_bound(evs, list.drop_last(), e);
        let o = overlapping_inserts(evs, list, e);
        let r = overlapping_inserts(evs, list.drop_last(), e);
        assert forall|i: int| 0 <= i < o.len() implies 0 <= #[trigger] o[i] < list.len() by {
            if i < r.len() { assert(o[i] == r[i]); }
        }
    }
}

proof fn lemma_prefix_refs(evs: Seq<EventView>, q: QualityView, n: nat)
    requires
        n <= evs.len(),
        evs.len() <= usize::MAX,
    ensures
        refs_ok(evs, correlate_prefix(evs, q, n)),
    decreases n,
{
    if n > 0 {
        lemma_prefix_refs(evs, q, (n - 1) as nat);
        lemma_step_refs(evs, q, correlate_prefix(evs, q, (n - 1) as nat), n - 1);
    }
}

/// Record numbers reported by the analysis always name raw records of the
/// trace, of the right kind: issue candidates and unmatched issues are issue
/// records, orphans are insert records and unpaired requeues are requeue
/// records. No request identity is invented.
pub proof fn law_reported_records_exist(t: TraceView)
    requires
        t.events.len() <= usize::MAX,
    ensures
        all_name(t.events, spec_analyze(t).unmatched_issue_records, BlockKind::Issue),
        all_name(t.events, spec_analyze(t).orphan_insert_records, BlockKind::Insert),
        all_name(t.events, spec_analyze(t).unpaired_requeue_records, BlockKind::Requeue),
        forall|i: int| 0 <= i < spec_analyze(t).completions.len() ==> all_name(t.events, (#[trigger] spec_analyze(t).completions[i]).issue_candidates, BlockKind::Issue),
{
    let evs = t.events;
    lemma_prefix_refs(evs, t.quality, evs.len());
    let st = correlate_prefix(evs, t.quality, evs.len());
    let ps = st.pending.map_values(|l: Seq<Pending>| issue_ids(evs, l));
    let is = st.inserted.map_values(|l: Seq<usize>| insert_ids(evs, l));
    assert forall|i: int| 0 <= i < ps.len() implies all_name(evs, #[trigger] ps[i], BlockKind::Issue) by {
        lemma_issue_ids_name(evs, st.pending[i]);
    }
    assert forall|i: int| 0 <= i < is.len() implies all_name(evs, #[trigger] is[i], BlockKind::Insert) by {
        lemma_insert_ids_name(evs, st.inserted[i]);
    }
    lemma_flatten_names(evs, ps, BlockKind::Issue);
    lemma_flatten_names(evs, is, BlockKind::Insert);
    lemma_all_name_concat(evs, st.out.unmatched_issue_records, ps.flatten(), BlockKind::Issue);
    lemma_all_name_concat(evs, st.out.orphan_insert_records, is.flatten(), BlockKind::Insert);
}


// ---------------------------------------------------------------------------
// Accounting of issue records.

/// Record numbers of the issue events among the first `n` events.
pub open spec fn issue_records(evs: Seq<EventView>, n: nat) -> Seq<u64>
    decreases n,
{
    if n == 0 {
        seq![]
    } else {
        let r = issue_records(evs, (n - 1) as nat);
        if evs[n - 1].kind == BlockKind::Issue { r.push(evs[n - 1].record_id) } else { r }
    }
}

/// The issue that completion `n` consumes in state `st`: its single
/// overlapping pending issue, when the two ranges are identical.
pub open spec fn consumed_by(evs: Seq<EventView>, st: CorrelationState, n: int) -> Option<u64> {
    let e = evs[n];
    let list = queue_of(st.pending_keys, st.pending, event_key(e));
    let cands = overlapping(evs, list, e);
    if e.kind == BlockKind::Complete && cands.len() == 1 && same_range(evs[list[cands[0]].issue as int], e) {
        Some(evs[list[cands[0]].issue as int].record_id)
    } else {
        None
    }
}

/// Record numbers of the issues consumed by the completions among the first
/// `n` events, one per consuming completion, in trace order.
pub open spec fn consumed_records(evs: Seq<EventView>, q: QualityView, n: nat) -> Seq<u64>
    decreases n,
{
    if n == 0 {
        seq![]
    } else {
        let r = consumed_records(evs, q, (n - 1) as nat);
        match consumed_by(evs, correlate_prefix(evs, q, (n - 1) as nat), n - 1) {
            Some(id) => r.push(id),
            None => r,
        }
    }
}

/// Record numbers of the issues still pending, queue by queue.
pub open spec fn pending_records(evs: Seq<EventView>, lists: Seq<Seq<Pending>>) -> Seq<u64> {
    lists.map_values(|l: Seq<Pending>| issue_ids(evs, l)).flatten()
}

/// The issue records that a state holds: reported unmatched, or pending.
pub open spec fn held_records(evs: Seq<EventView>, st: CorrelationState) -> Multiset<u64> {
    st.out.unmatched_issue_records.to_multiset().add(pending_records(evs, st.pending).to_multiset())
}

proof fn lemma_flatten_split(m: Seq<Seq<u64>>, i: int)
    requires
        0 <= i <= m.len(),
    ensures
        m.flatten().to_multiset() == m.take(i).flatten().to_multiset().add(m.skip(i).flatten().to_multiset()),
{
    assert(m =~= m.take(i) + m.skip(i));
    vstd::seq_lib::lemma_flatten_concat(m.take(i), m.skip(i));
    vstd::seq_lib::lemma_multiset_commutative(m.take(i).flatten(), m.skip(i).flatten());
}

proof fn lemma_flatten_cons(a: Seq<u64>, rest: Seq<Seq<u64>>)
    ensures
        (seq![a] + rest).flatten().to_multiset() == a.to_multiset().add(rest.flatten().to_multiset()),
{
    vstd::seq_lib::lemma_flatten_concat(seq![a], rest);
    seq![a].lemma_flatten_singleton();
    vstd::seq_lib::lemma_multiset_commutative(a, rest.flatten());
}

proof fn lemma_empty_records()
    ensures
        Seq::<u64>::empty().to_multiset() == Multiset::<u64>::empty(),
{
    broadcast use vstd::seq_lib::group_to_multiset_ensures;
    assert(Seq::<u64>::empty().to_multiset() =~= Multiset::<u64>::empty());
}

proof fn lemma_one_record(id: u64)
    ensures
        seq![id].to_multiset() == Multiset::singleton(id),
{
    broadcast use vstd::seq_lib::group_to_multiset_ensures;
    broadcast use vstd::multiset::group_multiset_axioms;
    lemma_empty_records();
    assert(seq![id] =~= Seq::<u64>::empty().push(id));
    assert(seq![id].to_multiset() =~= Multiset::singleton(id));
}

/// Storing a queue trades the records of the queue it replaces for its own.
proof fn lemma_store_records(evs: Seq<EventView>, keys: Seq<CorrelationKey>, lists: Seq<Seq<Pending>>, k: CorrelationKey, list: Seq<Pending>)
    requires
        keys.len() == lists.len(),
    ensures
        pending_records(evs, store_queue(keys, lists, k, list).1).to_multiset().add(issue_ids(evs, queue_of(keys, lists, k)).to_multiset())
            == pending_records(evs, lists).to_multiset().add(issue_ids(evs, list).to_multiset()),
{
    broadcast use vstd::multiset::group_multiset_axioms;
    broadcast use vstd::seq_lib::group_to_multiset_ensures;
    lemma_empty_records();
    lemma_lower_pos_bound(keys, k);
    let i = lower_pos(keys, k) as int;
    let m = lists.map_values(|l: Seq<Pending>| issue_ids(evs, l));
    let nl = store_queue(keys, lists, k, list).1;
    let m2 = nl.map_values(|l: Seq<Pending>| issue_ids(evs, l));
    let a = issue_ids(evs, list);
    lemma_flatten_split(m, i);
    lemma_flatten_split(m2, i);
    assert(m2.take(i) =~= m.take(i));
    if has_key(keys, k) {
        assert(m.skip(i) =~= seq![m[i]] + m.skip(i + 1));
        assert(m2.skip(i) =~= seq![a] + m.skip(i + 1));
        lemma_flatten_cons(m[i], m.skip(i + 1));
        lemma_flatten_cons(a, m.skip(i + 1));
        assert(pending_records(evs, nl).to_multiset().add(m[i].to_multiset())
            =~= pending_records(evs, lists).to_multiset().add(a.to_multiset()));
    } else {
        assert(m2.skip(i) =~= seq![a] + m.skip(i));
        lemma_flatten_cons(a, m.skip(i));
        assert(issue_ids(evs, queue_of(keys, lists, k)) =~= Seq::<u64>::empty());
        assert(pending_records(evs, nl).to_multiset()
            =~= pending_records(evs, lists).to_multiset().add(a.to_multiset()));
    }
}

/// `lemma_store_records` at one record number.
proof fn lemma_store_counts(evs: Seq<EventView>, keys: Seq<CorrelationKey>, lists: Seq<Seq<Pending>>, k: CorrelationKey, list: Seq<Pending>, x: u64)
    requires
        keys.len() == lists.len(),
    ensures
        pending_records(evs, store_queue(keys, lists, k, list).1).to_multiset().count(x) + issue_ids(evs, queue_of(keys, lists, k)).to_multiset().count(x)
            == pending_records(evs, lists).to_multiset().count(x) + issue_ids(evs, list).to_multiset().count(x),
{
    broadcast use vstd::multiset::group_multiset_axioms;
    lemma_store_records(evs, keys, lists, k, list);
    assert(pending_records(evs, store_queue(keys, lists, k, list).1).to_multiset().add(issue_ids(evs, queue_of(keys, lists, k)).to_multiset()).count(x)
        == pending_records(evs, lists).to_multiset().add(issue_ids(evs, list).to_multiset()).count(x));
}

proof fn lemma_mark_ids(evs: Seq<EventView>, l: Seq<Pending>, e: EventView)
    ensures
        issue_ids(evs, mark_overlapping(evs, l, e)) == issue_ids(evs, l),
{
    assert(issue_ids(evs, mark_overlapping(evs, l, e)) =~= issue_ids(evs, l));
}

/// One event changes the held issue records only by the issue it adds or
/// the issue a completion consumes.
proof fn lemma_step_holds(evs: Seq<EventView>, q: QualityView, st: CorrelationState, n: int)
    requires
        0 <= n < evs.len(),
        evs.len() <= usize::MAX,
        refs_ok(evs, st),
    ensures
        held_records(evs, correlate_step(evs, q, st, n)).add(match consumed_by(evs, st, n) {
            Some(id) => Multiset::singleton(id),
            None => Multiset::empty(),
        }) == (if evs[n].kind == BlockKind::Issue { held_records(evs, st).insert(evs[n].record_id) } else { held_records(evs, st) }),
{
    broadcast use vstd::multiset::group_multiset_axioms;
    broadcast use vstd::seq_lib::group_to_multiset_ensures;
    let e = evs[n];
    let k = event_key(e);
    let r = correlate_step(evs, q, st, n);
    let plist = queue_of(st.pending_keys, st.pending, k);
    let u = st.out.unmatched_issue_records;
    match e.kind {
        BlockKind::Insert => {
            assert(r.pending == st.pending);
            assert(r.out.unmatched_issue_records == u);
            assert(held_records(evs, r) =~= held_records(evs, st));
        },
        BlockKind::Issue => {
            let ilist = queue_of(st.inserted_keys, st.inserted, k);
            let m = overlapping_inserts(evs, ilist, e);
            let claims = m.len() == 1 && same_range(evs[ilist[m[0]] as int], e);
            let insert: Option<usize> = if claims { Some(ilist[m[0]]) } else { None };
            let st1 = with_inserted(st, k, if claims { ilist.remove(m[0]) } else { ilist });
            assert(st1.pending == st.pending && st1.pending_keys == st.pending_keys);
            let marked = mark_overlapping(evs, plist, e);
            lemma_mark_ids(evs, plist, e);
            let id = e.record_id;
            let p = Pending { issue: n as usize, insert, compromised: st1.limited.contains(k) || overlapping(evs, plist, e).len() > 0 };
            if marked.len() >= MAX_PENDING_PER_DEVICE {
                let one = seq![Pending { issue: n as usize, insert, compromised: true }];
                lemma_store_records(evs, st.pending_keys, st.pending, k, one);
                assert(issue_ids(evs, one) =~= seq![id]);
                assert(r.out.unmatched_issue_records == u + issue_ids(evs, marked));
                vstd::seq_lib::lemma_multiset_commutative(u, issue_ids(evs, marked));
                lemma_one_record(id);
                let pend = pending_records(evs, st.pending).to_multiset();
                let pend2 = pending_records(evs, r.pending).to_multiset();
                let mk = issue_ids(evs, marked).to_multiset();
                assert(r.pending == store_queue(st.pending_keys, st.pending, k, one).1);
                assert(pend2.add(mk) == pend.add(Multiset::singleton(id)));
                assert(r.out.unmatched_issue_records.to_multiset() == u.to_multiset().add(mk));
                assert forall|x: u64| #[trigger] held_records(evs, r).count(x) == held_records(evs, st).insert(id).count(x) by {
                    assert(pend2.add(mk).count(x) == pend.add(Multiset::singleton(id)).count(x));
                }
                assert(held_records(evs, r) =~= held_records(evs, st).insert(id));
            } else {
                let nl = marked.push(p);
                lemma_store_records(evs, st.pending_keys, st.pending, k, nl);
                assert(issue_ids(evs, nl) =~= issue_ids(evs, marked).push(id));
                assert(r.out.unmatched_issue_records == u);
                let pend = pending_records(evs, st.pending).to_multiset();
                let pend2 = pending_records(evs, r.pending).to_multiset();
                let mk = issue_ids(evs, marked).to_multiset();
                assert(r.pending == store_queue(st.pending_keys, st.pending, k, nl).1);
                assert(issue_ids(evs, nl).to_multiset() == mk.insert(id));
                assert(pend2.add(mk) == pend.add(mk.insert(id)));
                assert forall|x: u64| #[trigger] held_records(evs, r).count(x) == held_records(evs, st).insert(id).count(x) by {
                    assert(pend2.add(mk).count(x) == pend.add(mk.insert(id)).count(x));
                }
                assert(held_records(evs, r) =~= held_records(evs, st).insert(id));
            }
        },
        BlockKind::Requeue => {
            let marked = mark_overlapping(evs, plist, e);
            lemma_mark_ids(evs, plist, e);
            assert(r.out.unmatched_issue_records == u);
            assert(r.pending == store_queue(st.pending_keys, st.pending, k, marked).1);
            assert forall|x: u64| #[trigger] held_records(evs, r).count(x) == held_records(evs, st).count(x) by {
                lemma_store_counts(evs, st.pending_keys, st.pending, k, marked, x);
            }
            assert(held_records(evs, r) =~= held_records(evs, st));
        },
        BlockKind::Complete => {
            let cands = overlapping(evs, plist, e);
            lemma_overlapping_bound(evs, plist, e);
            assert(r.out.unmatched_issue_records == u);
            if cands.len() == 1 {
                let c = cands[0];
                let p = plist[c];
                if same_range(evs[p.issue as int], e) {
                    let nl = plist.remove(c);
                    let ids = issue_ids(evs, plist);
                    let idc = evs[p.issue as int].record_id;
                    assert(ids[c] == idc);
                    assert(issue_ids(evs, nl) =~= ids.remove(c));
                    vstd::seq_lib::to_multiset_remove(ids, c);
                    assert(ids.to_multiset().count(idc) > 0) by {
                        assert(ids.contains(idc));
                    }
                    assert(r.pending == store_queue(st.pending_keys, st.pending, k, nl).1);
                    assert forall|x: u64| #[trigger] held_records(evs, r).add(Multiset::singleton(idc)).count(x) == held_records(evs, st).count(x) by {
                        lemma_store_counts(evs, st.pending_keys, st.pending, k, nl, x);
                    }
                    assert(held_records(evs, r).add(Multiset::singleton(idc)) =~= held_records(evs, st));
                } else {
                    let nl = plist.update(c, Pending { compromised: true, ..p });
                    assert(issue_ids(evs, nl) =~= issue_ids(evs, plist));
                    assert(r.pending == store_queue(st.pending_keys, st.pending, k, nl).1);
                    assert forall|x: u64| #[trigger] held_records(evs, r).count(x) == held_records(evs, st).count(x) by {
                        lemma_store_counts(evs, st.pending_keys, st.pending, k, nl, x);
                    }
                    assert(held_records(evs, r) =~= held_records(evs, st));
                }
            } else if cands.len() > 1 {
                let marked = mark_overlapping(evs, plist, e);
                lemma_mark_ids(evs, plist, e);
                assert(r.pending == store_queue(st.pending_keys, st.pending, k, marked).1);
                assert forall|x: u64| #[trigger] held_records(evs, r).count(x) == held_records(evs, st).count(x) by {
                    lemma_store_counts(evs, st.pending_keys, st.pending, k, marked, x);
                }
                assert(held_records(evs, r) =~= held_records(evs, st));
            } else {
                assert(r.pending == store_queue(st.pending_keys, st.pending, k, plist).1);
                assert forall|x: u64| #[trigger] held_records(evs, r).count(x) == held_records(evs, st).count(x) by {
                    lemma_store_counts(evs, st.pending_keys, st.pending, k, plist, x);
                }
                assert(held_records(evs, r) =~= held_records(evs, st));
            }
        },
    }
}

proof fn lemma_prefix_holds(evs: Seq<EventView>, q: QualityView, n: nat)
    requires
        n <= evs.len(),
        evs.len() <= usize::MAX,
    ensures
        held_records(evs, correlate_prefix(evs, q, n)).add(consumed_records(evs, q, n).to_multiset())
            == issue_records(evs, n).to_multiset(),
    decreases n,
{
    broadcast use vstd::multiset::group_multiset_axioms;
    broadcast use vstd::seq_lib::group_to_multiset_ensures;
    lemma_empty_records();
    if n == 0 {
        assert(held_records(evs, initial_state()) =~= Multiset::empty()) by {
            assert(initial_state().pending.map_values(|l: Seq<Pending>| issue_ids(evs, l)) =~= Seq::<Seq<u64>>::empty());
            assert(pending_records(evs, initial_state().pending) =~= Seq::<u64>::empty());
        }
        assert(held_records(evs, correlate_prefix(evs, q, 0)).add(consumed_records(evs, q, 0).to_multiset()) =~= issue_records(evs, 0).to_multiset());
    } else {
        let m = (n - 1) as nat;
        lemma_prefix_holds(evs, q, m);
        lemma_prefix_refs(evs, q, m);
        let st = correlate_prefix(evs, q, m);
        lemma_step_holds(evs, q, st, m as int);
        let c = consumed_records(evs, q, m);
        let ir = issue_records(evs, m);
        match consumed_by(evs, st, m as int) {
            Some(id) => {
                assert(consumed_records(evs, q, n).to_multiset() =~= c.to_multiset().insert(id));
            },
            None => {},
        }
        if evs[m as int].kind == BlockKind::Issue {
            assert(issue_records(evs, n).to_multiset() =~= ir.to_multiset().insert(evs[m as int].record_id));
        }
        let st2 = correlate_prefix(evs, q, n);
        let cm = match consumed_by(evs, st, m as int) {
            Some(id) => Multiset::singleton(id),
            None => Multiset::empty(),
        };
        let rhs = if evs[m as int].kind == BlockKind::Issue { held_records(evs, st).insert(evs[m as int].record_id) } else { held_records(evs, st) };
        assert(st2 == correlate_step(evs, q, st, m as int));
        assert forall|x: u64| #[trigger] held_records(evs, st2).add(consumed_records(evs, q, n).to_multiset()).count(x)
            == issue_records(evs, n).to_multiset().count(x) by {
            assert(held_records(evs, st2).add(cm).count(x) == rhs.count(x));
            assert(held_records(evs, st).add(c.to_multiset()).count(x) == ir.to_multiset().count(x));
            match consumed_by(evs, st, m as int) {
                Some(id) => {
                    assert(consumed_records(evs, q, n) == c.push(id));
                },
                None => {
                    assert(consumed_records(evs, q, n) == c);
                },
            }
        }
        assert(held_records(evs, st2).add(consumed_records(evs, q, n).to_multiset())
            =~= issue_records(evs, n).to_multiset());
    }
}

/// Every issue record is accounted for once: the issue records of the trace
/// are, as a multiset, the unmatched issue records together with the issues
/// consumed by completions, one per consuming completion.
pub proof fn law_each_issue_unmatched_or_consumed(t: TraceView)
    requires
        t.events.len() <= usize::MAX,
    ensures
        spec_analyze(t).unmatched_issue_records.to_multiset().add(consumed_records(t.events, t.quality, t.events.len()).to_multiset())
            == issue_records(t.events, t.events.len()).to_multiset(),
{
    broadcast use vstd::multiset::group_multiset_axioms;
    let evs = t.events;
    let st = correlate_prefix(evs, t.quality, evs.len());
    lemma_prefix_holds(evs, t.quality, evs.len());
    let pending_ids = st.pending.map_values(|l: Seq<Pending>| issue_ids(t.events, l));
    assert(pending_ids =~= st.pending.map_values(|l: Seq<Pending>| issue_ids(evs, l)));
    assert(spec_analyze(t).unmatched_issue_records == st.out.unmatched_issue_records + pending_records(evs, st.pending));
    vstd::seq_lib::lemma_multiset_commutative(st.out.unmatched_issue_records, pending_records(evs, st.pending));
}

/// Record numbers counted from 1 in trace order: the issue records among the
/// first `n` events are below `n + 1`, each held once.
proof fn lemma_issue_records_once(evs: Seq<EventView>, n: nat)
    requires
        n <= evs.len(),
        numbered(evs),
    ensures
        forall|x: u64| #[trigger] issue_records(evs, n).to_multiset().count(x) > 0 ==> 1 <= x <= n,
        forall|j: int| 0 <= j < n && evs[j].kind == BlockKind::Issue ==>
            #[trigger] issue_records(evs, n).to_multiset().count(evs[j].record_id) == 1,
    decreases n,
{
    broadcast use vstd::multiset::group_multiset_axioms;
    broadcast use vstd::seq_lib::group_to_multiset_ensures;
    lemma_empty_records();
    if n > 0 {
        let m = (n - 1) as nat;
        lemma_issue_records_once(evs, m);
        let old_ms = issue_records(evs, m).to_multiset();
        assert(evs[m as int].record_id == n);
        if evs[m as int].kind == BlockKind::Issue {
            assert(issue_records(evs, n).to_multiset() == old_ms.insert(evs[m as int].record_id));
        } else {
            assert(issue_records(evs, n) == issue_records(evs, m));
        }
        assert forall|j: int| 0 <= j < n && evs[j].kind == BlockKind::Issue implies
            #[trigger] issue_records(evs, n).to_multiset().count(evs[j].record_id) == 1 by {
            assert(evs[j].record_id == j + 1);
            if j < m {
                assert(old_ms.count(evs[j].record_id) == 1);
            } else {
                assert(old_ms.count(evs[j].record_id) == 0);
            }
        }
    }
}

/// In a decoded trace, whose record numbers are unique, each issue record is
/// reported unmatched or consumed by exactly one completion, and never both.
pub proof fn law_issue_unmatched_or_consumed_once(t: TraceView, j: int)
    requires
        t.events.len() <= usize::MAX,
        numbered(t.events),
        0 <= j < t.events.len(),
        t.events[j].kind == BlockKind::Issue,
    ensures
        spec_analyze(t).unmatched_issue_records.to_multiset().count(t.events[j].record_id)
            + consumed_records(t.events, t.quality, t.events.len()).to_multiset().count(t.events[j].record_id) == 1,
{
    broadcast use vstd::multiset::group_multiset_axioms;
    law_each_issue_unmatched_or_consumed(t);
    lemma_issue_records_once(t.events, t.events.len());
    let id = t.events[j].record_id;
    assert(spec_analyze(t).unmatched_issue_records.to_multiset().add(consumed_records(t.events, t.quality, t.events.len()).to_multiset()).count(id)
        == issue_records(t.events, t.events.len()).to_multiset().count(id));
}

// ---------------------------------------------------------------------------
// Laws on ranges, kernel loss and observation timing.

/// Sector `x` lies in the range of `e`, below the last addressable sector
/// `u64::MAX` at which ranges are cut off.
pub open spec fn covers(e: EventView, x: int) -> bool {
    e.sector <= x < e.sector + e.sectors && x < u64::MAX
}

/// Two non-empty sector ranges overlap exactly when they share a sector, so
/// ranges that only touch, like `[8, 16)` and `[16, 24)`, never overlap; a
/// zero-length range overlaps only a range that starts at the same sector.
pub proof fn law_overlap_is_a_shared_sector(a: EventView, b: EventView)
    ensures
        a.sectors > 0 && b.sectors > 0 ==> (ranges_overlap(a, b) <==> exists|x: int| covers(a, x) && covers(b, x)),
        a.sectors == 0 || b.sectors == 0 ==> (ranges_overlap(a, b) <==> a.sector == b.sector),
        a.sectors > 0 && b.sectors > 0 && a.sector + a.sectors <= b.sector ==> !ranges_overlap(a, b),
{
    if a.sectors > 0 && b.sectors > 0 {
        if ranges_overlap(a, b) {
            let x: int = if a.sector >= b.sector { a.sector as int } else { b.sector as int };
            assert(covers(a, x) && covers(b, x));
        }
        if exists|x: int| covers(a, x) && covers(b, x) {
            let x = choose|x: int| covers(a, x) && covers(b, x);
            assert(ranges_overlap(a, b));
        }
    }
}

/// Growth of one counter between two snapshots, when both exist and it did
/// not go backwards.
pub open spec fn grew_by(start: Option<u64>, end: Option<u64>, g: int) -> bool {
    start matches Some(a) && end matches Some(b) && a <= b && g == b - a
}

proof fn lemma_total_loss_covers(end: Seq<(u64, crate::perfetto::CpuCounters)>, start: Seq<(u64, crate::perfetto::CpuCounters)>, j: int)
    requires
        0 <= j < end.len(),
        total_loss(end, start) is Some,
    ensures
        crate::perfetto::key_index(start, end[j].0) matches Some(i) && {
            let s = start[i].1;
            let e = end[j].1;
            &&& s.overrun is Some && e.overrun is Some && s.overrun->0 <= e.overrun->0
            &&& s.commit_overrun is Some && e.commit_overrun is Some && s.commit_overrun->0 <= e.commit_overrun->0
            &&& s.dropped_events is Some && e.dropped_events is Some && s.dropped_events->0 <= e.dropped_events->0
            &&& total_loss(end, start)->0 >= (e.overrun->0 - s.overrun->0) + (e.commit_overrun->0 - s.commit_overrun->0)
                + (e.dropped_events->0 - s.dropped_events->0)
        },
    decreases end.len(),
{
    if j < end.len() - 1 {
        assert(end.drop_last()[j] == end[j]);
        lemma_total_loss_covers(end.drop_last(), start, j);
    }
}

/// A known kernel loss counts every ring-buffer counter of every CPU with
/// an end snapshot: each of overrun, commit overrun and dropped events was
/// seen at start and end, did not go backwards, and its growth is part of
/// the loss, so a growth in any one of them makes the loss positive.
pub proof fn law_kernel_loss_counts_every_counter(q: QualityView, j: int)
    requires
        kernel_lost(q) is Some,
        0 <= j < q.kernel_end.len(),
    ensures
        crate::perfetto::key_index(q.kernel_start, q.kernel_end[j].0) matches Some(i) && {
            let s = q.kernel_start[i].1;
            let e = q.kernel_end[j].1;
            let v = kernel_lost(q)->0;
            exists|g0: int, g1: int, g2: int|
                grew_by(s.overrun, e.overrun, g0) && grew_by(s.commit_overrun, e.commit_overrun, g1)
                && grew_by(s.dropped_events, e.dropped_events, g2) && v >= g0 + g1 + g2
        },
{
    lemma_total_loss_covers(q.kernel_end, q.kernel_start, j);
    let i = crate::perfetto::key_index(q.kernel_start, q.kernel_end[j].0)->0;
    let s = q.kernel_start[i].1;
    let e = q.kernel_end[j].1;
    let g0: int = e.overrun->0 - s.overrun->0;
    let g1: int = e.commit_overrun->0 - s.commit_overrun->0;
    let g2: int = e.dropped_events->0 - s.dropped_events->0;
    assert(grew_by(s.overrun, e.overrun, g0) && grew_by(s.commit_overrun, e.commit_overrun, g1)
        && grew_by(s.dropped_events, e.dropped_events, g2));
}

/// Each of the three counters was seen in both snapshots and did not go
/// backwards.
pub open spec fn cpu_measured(s: crate::perfetto::CpuCounters, e: crate::perfetto::CpuCounters) -> bool {
    &&& s.overrun is Some && e.overrun is Some && s.overrun->0 <= e.overrun->0
    &&& s.commit_overrun is Some && e.commit_overrun is Some && s.commit_overrun->0 <= e.commit_overrun->0
    &&& s.dropped_events is Some && e.dropped_events is Some && s.dropped_events->0 <= e.dropped_events->0
}

/// Every CPU with an end snapshot has a start snapshot, and each of its
/// three counters was seen at both and did not go backwards.
pub open spec fn all_measured(end: Seq<(u64, crate::perfetto::CpuCounters)>, start: Seq<(u64, crate::perfetto::CpuCounters)>) -> bool {
    forall|j: int| 0 <= j < end.len() ==> (crate::perfetto::key_index(start, (#[trigger] end[j]).0) is Some
        && cpu_measured(start[crate::perfetto::key_index(start, end[j].0)->0].1, end[j].1))
}

/// The growth of the overrun, commit overrun and dropped event counters,
/// summed over the CPUs with an end snapshot.
pub open spec fn growth_total(end: Seq<(u64, crate::perfetto::CpuCounters)>, start: Seq<(u64, crate::perfetto::CpuCounters)>) -> int
    decreases end.len(),
{
    if end.len() == 0 {
        0
    } else {
        let e = end.last().1;
        let s = match crate::perfetto::key_index(start, end.last().0) {
            Some(i) => start[i].1,
            None => e,
        };
        growth_total(end.drop_last(), start)
            + (e.overrun->0 - s.overrun->0) + (e.commit_overrun->0 - s.commit_overrun->0)
            + (e.dropped_events->0 - s.dropped_events->0)
    }
}

proof fn lemma_total_loss_measured(end: Seq<(u64, crate::perfetto::CpuCounters)>, start: Seq<(u64, crate::perfetto::CpuCounters)>)
    requires
        all_measured(end, start),
    ensures
        total_loss(end, start) == Some(growth_total(end, start) as nat),
        growth_total(end, start) >= 0,
    decreases end.len(),
{
    if end.len() > 0 {
        let init = end.drop_last();
        assert forall|j: int| 0 <= j < init.len() implies (crate::perfetto::key_index(start, (#[trigger] init[j]).0) is Some
            && cpu_measured(start[crate::perfetto::key_index(start, init[j].0)->0].1, init[j].1)) by {
            assert(init[j] == end[j]);
        }
        lemma_total_loss_measured(init, start);
        assert(end[end.len() - 1] == end.last());
    }
}

/// Once both ftrace phases were seen and every CPU with an end snapshot was
/// measured, the kernel loss is known, and it is exactly the growth of all
/// three counters summed over those CPUs (when that fits in `u64`). Without
/// both phases, or without any end snapshot, it is unknown.
pub proof fn law_kernel_loss_is_the_counter_growth(q: QualityView)
    ensures
        !q.ftrace_start_seen || !q.ftrace_end_seen || q.kernel_end.len() == 0 ==> kernel_lost(q) is None,
        q.ftrace_start_seen && q.ftrace_end_seen && q.kernel_end.len() > 0 && all_measured(q.kernel_end, q.kernel_start)
            && growth_total(q.kernel_end, q.kernel_start) <= u64::MAX
            ==> kernel_lost(q) == Some(growth_total(q.kernel_end, q.kernel_start) as u64),
{
    if all_measured(q.kernel_end, q.kernel_start) {
        lemma_total_loss_measured(q.kernel_end, q.kernel_start);
    }
}

/// A completion's observation carries timing only when it is Probable: then
/// it has exactly one overlapping pending issue, whose time and device
/// latency it reports, and its queue latency is the issue time less the
/// time of the insert the issue claimed, when that insert is on the boot
/// clock and precedes the issue, and absent otherwise.
pub proof fn law_probable_observation_timing(evs: Seq<EventView>, q: QualityView, st: CorrelationState, n: int)
    requires
        0 <= n < evs.len(),
        evs[n].kind == BlockKind::Complete,
    ensures ({
        let e = evs[n];
        let list = queue_of(st.pending_keys, st.pending, event_key(e));
        let cands = overlapping(evs, list, e);
        let o = correlate_step(evs, q, st, n).out.completions.last();
        &&& o.timing_confidence != probable_text() ==> o.device_latency_ns is None && o.queue_latency_ns is None
        &&& o.timing_confidence == probable_text() ==> cands.len() == 1 && ({
            let p = list[cands[0]];
            let issue = evs[p.issue as int];
            &&& issue.timestamp_ns < e.timestamp_ns
            &&& o.issue_timestamp_ns == Some(issue.timestamp_ns)
            &&& o.device_latency_ns == Some((e.timestamp_ns - issue.timestamp_ns) as u64)
            &&& (p.insert matches Some(i) && evs[i as int].clock == 0 && evs[i as int].timestamp_ns < issue.timestamp_ns)
                ==> o.queue_latency_ns == Some((issue.timestamp_ns - evs[p.insert->0 as int].timestamp_ns) as u64)
            &&& !(p.insert matches Some(i) && evs[i as int].clock == 0 && evs[i as int].timestamp_ns < issue.timestamp_ns)
                ==> o.queue_latency_ns is None
        })
    }),
{
    reveal_strlit("Probable");
    reveal_strlit("Unresolved");
    assert(probable_text() != unresolved_text()) by {
        assert(probable_text().len() != unresolved_text().len());
    }
}

} // verus!
