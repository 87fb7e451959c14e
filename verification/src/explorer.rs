//! Explorer presets and the axis and grouping choices they select, the
//! capture phases shown to the user, and bounded sampling of long sessions.
use vstd::prelude::*;

verus! {

/// Metrics computed per time window by the window series view.
#[derive(Debug, Clone, Copy, PartialEq, Eq, Structural)]
pub enum WindowMetric {
    Bandwidth,
    Iops,
    CumulativePayload,
    BusyPercent,
    BusyMs,
    IdleMs,
    BusyRunMs,
    IdleGapMs,
    BurstPayload,
}

/// Layouts of the timeline view.
#[derive(Debug, Clone, Copy, PartialEq, Eq, Structural)]
pub enum TimelineMode {
    Commands,
    Cpus,
    Requests,
}

#[derive(Debug, Clone, Copy, PartialEq, Eq, Structural)]
pub enum AxisMetric {
    TimeMs,
    Sector,
    AddressKiB,
    ChunkKiB,
    TotalLatencyMs,
    QueueLatencyMs,
    DeviceLatencyMs,
    Pid,
    QueueDepth,
    FilesystemLatencyMs,
    UfsLatencyMs,
    CriticalPathMs,
    IssueQueueDepth,
    IssueGapMs,
    CompletionGapMs,
    LatencyPerKiB,
    IssueCpu,
    RollingC2cBandwidth,
    RollingD2dBandwidth,
    Window(WindowMetric),
    Timeline(TimelineMode),
    SchedulerIoWait,
}

#[derive(Debug, Clone, Copy, PartialEq, Eq, Structural)]
pub enum GroupBy {
    Ungrouped,
    Direction,
    AccessPattern,
    SizeClass,
    Process,
    File,
    Origin,
    Confidence,
}

#[derive(Debug, Clone, Copy, PartialEq, Eq, Structural)]
pub enum ExplorerPreset {
    LatencyTimeline,
    LatencyByFile,
    QueuePressure,
    LayerContribution,
    LbaDistribution,
    Custom,
    ChunkTimeline,
    QueueTimeline,
    IssueGapTimeline,
    CompletionGapTimeline,
    NormalizedLatencyTimeline,
    CpuTimeline,
    WindowBandwidth,
    WindowIops,
    CumulativePayload,
    WindowBusyPercent,
    WindowBusyMs,
    WindowIdleMs,
    RollingC2cBandwidth,
    RollingD2dBandwidth,
    BusyIntervals,
    IdleIntervals,
    BurstPayload,
    ConnectedFootprint,
    CommandTimeline,
    RequestGantt,
    CpuEvents,
    SchedulerIoWait,
}

/// The label of an axis metric. Window and timeline metrics are labelled by
/// their own series view, so they have none here.
pub open spec fn axis_label(m: AxisMetric) -> Option<Seq<char>> {
    match m {
        AxisMetric::TimeMs => Some("Time (ms)"@),
        AxisMetric::Sector => Some("Sector"@),
        AxisMetric::AddressKiB => Some("Address (KiB)"@),
        AxisMetric::ChunkKiB => Some("Chunk (KiB)"@),
        AxisMetric::TotalLatencyMs => Some("Total latency (ms)"@),
        AxisMetric::QueueLatencyMs => Some("Queue latency (ms)"@),
        AxisMetric::DeviceLatencyMs => Some("Device latency (ms)"@),
        AxisMetric::Pid => Some("PID"@),
        AxisMetric::QueueDepth => Some("QD after completion (all devices)"@),
        AxisMetric::FilesystemLatencyMs => Some("Filesystem latency (ms)"@),
        AxisMetric::UfsLatencyMs => Some("UFS latency (ms)"@),
        AxisMetric::CriticalPathMs => Some("Critical path (ms)"@),
        AxisMetric::IssueQueueDepth => Some("Observed QD at issue (device)"@),
        AxisMetric::IssueGapMs => Some("D2D issue gap (ms)"@),
        AxisMetric::CompletionGapMs => Some("C2C completion gap (ms)"@),
        AxisMetric::LatencyPerKiB => Some("Device latency (ms/KiB)"@),
        AxisMetric::IssueCpu => Some("Issue CPU"@),
        AxisMetric::RollingC2cBandwidth => Some("Rolling C2C BW (MiB/s)"@),
        AxisMetric::RollingD2dBandwidth => Some("Rolling D2D BW (MiB/s)"@),
        AxisMetric::SchedulerIoWait => Some("Scheduler I/O wait (us)"@),
        AxisMetric::Window(_) => None,
        AxisMetric::Timeline(_) => None,
    }
}

impl AxisMetric {
    pub fn label(self) -> (r: Option<&'static str>)
        ensures
            match r {
                Some(s) => axis_label(self) == Some(s@),
                None => axis_label(self) is None,
            },
    {
        match self {
            AxisMetric::TimeMs => Some("Time (ms)"),
            AxisMetric::Sector => Some("Sector"),
            AxisMetric::AddressKiB => Some("Address (KiB)"),
            AxisMetric::ChunkKiB => Some("Chunk (KiB)"),
            AxisMetric::TotalLatencyMs => Some("Total latency (ms)"),
            AxisMetric::QueueLatencyMs => Some("Queue latency (ms)"),
            AxisMetric::DeviceLatencyMs => Some("Device latency (ms)"),
            AxisMetric::Pid => Some("PID"),
            AxisMetric::QueueDepth => Some("QD after completion (all devices)"),
            AxisMetric::FilesystemLatencyMs => Some("Filesystem latency (ms)"),
            AxisMetric::UfsLatencyMs => Some("UFS latency (ms)"),
            AxisMetric::CriticalPathMs => Some("Critical path (ms)"),
            AxisMetric::IssueQueueDepth => Some("Observed QD at issue (device)"),
            AxisMetric::IssueGapMs => Some("D2D issue gap (ms)"),
            AxisMetric::CompletionGapMs => Some("C2C completion gap (ms)"),
            AxisMetric::LatencyPerKiB => Some("Device latency (ms/KiB)"),
            AxisMetric::IssueCpu => Some("Issue CPU"),
            AxisMetric::RollingC2cBandwidth => Some("Rolling C2C BW (MiB/s)"),
            AxisMetric::RollingD2dBandwidth => Some("Rolling D2D BW (MiB/s)"),
            AxisMetric::SchedulerIoWait => Some("Scheduler I/O wait (us)"),
            AxisMetric::Window(_) => None,
            AxisMetric::Timeline(_) => None,
        }
    }

    /// Metrics read from the I/O transaction graph rather than the request.
    pub fn needs_graph(self) -> (r: bool)
        ensures
            r == (self == AxisMetric::FilesystemLatencyMs || self == AxisMetric::UfsLatencyMs || self == AxisMetric::CriticalPathMs),
    {
        match self {
            AxisMetric::FilesystemLatencyMs | AxisMetric::UfsLatencyMs | AxisMetric::CriticalPathMs => true,
            _ => false,
        }
    }

    /// Metrics that place a request on the storage address space.
    pub fn is_storage_address(self) -> (r: bool)
        ensures
            r == (self == AxisMetric::Sector || self == AxisMetric::AddressKiB),
    {
        match self {
            AxisMetric::Sector | AxisMetric::AddressKiB => true,
            _ => false,
        }
    }
}

pub open spec fn group_label(g: GroupBy) -> Seq<char> {
    match g {
        GroupBy::Ungrouped => "None"@,
        GroupBy::Direction => "Read / Write"@,
        GroupBy::AccessPattern => "Sequential / Random"@,
        GroupBy::SizeClass => "Small / Large"@,
        GroupBy::Process => "Process"@,
        GroupBy::File => "File"@,
        GroupBy::Origin => "Origin"@,
        GroupBy::Confidence => "Attribution confidence"@,
    }
}

impl GroupBy {
    pub fn label(self) -> (r: &'static str)
        ensures
            r@ == group_label(self),
    {
        match self {
            GroupBy::Ungrouped => "None",
            GroupBy::Direction => "Read / Write",
            GroupBy::AccessPattern => "Sequential / Random",
            GroupBy::SizeClass => "Small / Large",
            GroupBy::Process => "Process",
            GroupBy::File => "File",
            GroupBy::Origin => "Origin",
            GroupBy::Confidence => "Attribution confidence",
        }
    }

    /// Groupings that need file attribution from the transaction graph.
    pub fn needs_graph(self) -> (r: bool)
        ensures
            r == (self == GroupBy::File || self == GroupBy::Origin || self == GroupBy::Confidence),
    {
        match self {
            GroupBy::File | GroupBy::Origin | GroupBy::Confidence => true,
            _ => false,
        }
    }
}

pub open spec fn preset_label(p: ExplorerPreset) -> Seq<char> {
    match p {
        ExplorerPreset::LatencyTimeline => "Latency over time"@,
        ExplorerPreset::LatencyByFile => "Latency by file"@,
        ExplorerPreset::QueuePressure => "Queue depth vs latency"@,
        ExplorerPreset::LayerContribution => "Filesystem vs UFS"@,
        ExplorerPreset::LbaDistribution => "LBA distribution"@,
        ExplorerPreset::Custom => "Custom"@,
        ExplorerPreset::ChunkTimeline => "Chunk size over time"@,
        ExplorerPreset::QueueTimeline => "Queue depth over time"@,
        ExplorerPreset::IssueGapTimeline => "D2D issue gap over time"@,
        ExplorerPreset::CompletionGapTimeline => "C2C completion gap over time"@,
        ExplorerPreset::NormalizedLatencyTimeline => "Latency per KiB over time"@,
        ExplorerPreset::CpuTimeline => "Issue CPU over time"@,
        ExplorerPreset::WindowBandwidth => "Bandwidth by time window"@,
        ExplorerPreset::WindowIops => "IOPS by time window"@,
        ExplorerPreset::CumulativePayload => "Cumulative transferred data"@,
        ExplorerPreset::WindowBusyPercent => "Device busy % over time"@,
        ExplorerPreset::WindowBusyMs => "Active time by window"@,
        ExplorerPreset::WindowIdleMs => "Idle time by window"@,
        ExplorerPreset::RollingC2cBandwidth => "Rolling C2C bandwidth"@,
        ExplorerPreset::RollingD2dBandwidth => "Rolling D2D bandwidth"@,
        ExplorerPreset::BusyIntervals => "Continuous busy intervals"@,
        ExplorerPreset::IdleIntervals => "Continuous idle intervals"@,
        ExplorerPreset::BurstPayload => "Cumulative data within bursts"@,
        ExplorerPreset::ConnectedFootprint => "Connected LBA footprint"@,
        ExplorerPreset::CommandTimeline => "Block command timeline"@,
        ExplorerPreset::RequestGantt => "Request Gantt"@,
        ExplorerPreset::CpuEvents => "Issue / completion CPU timeline"@,
        ExplorerPreset::SchedulerIoWait => "Scheduler I/O wait over time"@,
    }
}

/// The axes and grouping a preset selects; the custom preset selects none.
pub open spec fn preset_query(p: ExplorerPreset) -> Option<(AxisMetric, AxisMetric, GroupBy)> {
    match p {
        ExplorerPreset::LatencyTimeline => Some((AxisMetric::TimeMs, AxisMetric::TotalLatencyMs, GroupBy::Direction)),
        ExplorerPreset::LatencyByFile => Some((AxisMetric::TimeMs, AxisMetric::TotalLatencyMs, GroupBy::File)),
        ExplorerPreset::QueuePressure => Some((AxisMetric::QueueDepth, AxisMetric::TotalLatencyMs, GroupBy::Direction)),
        ExplorerPreset::LayerContribution => Some((AxisMetric::FilesystemLatencyMs, AxisMetric::UfsLatencyMs, GroupBy::File)),
        ExplorerPreset::LbaDistribution => Some((AxisMetric::TimeMs, AxisMetric::Sector, GroupBy::Direction)),
        ExplorerPreset::Custom => None,
        ExplorerPreset::ChunkTimeline => Some((AxisMetric::TimeMs, AxisMetric::ChunkKiB, GroupBy::Direction)),
        ExplorerPreset::QueueTimeline => Some((AxisMetric::TimeMs, AxisMetric::IssueQueueDepth, GroupBy::Direction)),
        ExplorerPreset::IssueGapTimeline => Some((AxisMetric::TimeMs, AxisMetric::IssueGapMs, GroupBy::Direction)),
        ExplorerPreset::CompletionGapTimeline => Some((AxisMetric::TimeMs, AxisMetric::CompletionGapMs, GroupBy::Direction)),
        ExplorerPreset::NormalizedLatencyTimeline => Some((AxisMetric::TimeMs, AxisMetric::LatencyPerKiB, GroupBy::Direction)),
        ExplorerPreset::CpuTimeline => Some((AxisMetric::TimeMs, AxisMetric::IssueCpu, GroupBy::Process)),
        ExplorerPreset::WindowBandwidth => Some((AxisMetric::TimeMs, AxisMetric::Window(WindowMetric::Bandwidth), GroupBy::Direction)),
        ExplorerPreset::WindowIops => Some((AxisMetric::TimeMs, AxisMetric::Window(WindowMetric::Iops), GroupBy::Direction)),
        ExplorerPreset::CumulativePayload => Some((AxisMetric::TimeMs, AxisMetric::Window(WindowMetric::CumulativePayload), GroupBy::Direction)),
        ExplorerPreset::WindowBusyPercent => Some((AxisMetric::TimeMs, AxisMetric::Window(WindowMetric::BusyPercent), GroupBy::Ungrouped)),
        ExplorerPreset::WindowBusyMs => Some((AxisMetric::TimeMs, AxisMetric::Window(WindowMetric::BusyMs), GroupBy::Ungrouped)),
        ExplorerPreset::WindowIdleMs => Some((AxisMetric::TimeMs, AxisMetric::Window(WindowMetric::IdleMs), GroupBy::Ungrouped)),
        ExplorerPreset::RollingC2cBandwidth => Some((AxisMetric::TimeMs, AxisMetric::RollingC2cBandwidth, GroupBy::Direction)),
        ExplorerPreset::RollingD2dBandwidth => Some((AxisMetric::TimeMs, AxisMetric::RollingD2dBandwidth, GroupBy::Direction)),
        ExplorerPreset::BusyIntervals => Some((AxisMetric::TimeMs, AxisMetric::Window(WindowMetric::BusyRunMs), GroupBy::Ungrouped)),
        ExplorerPreset::IdleIntervals => Some((AxisMetric::TimeMs, AxisMetric::Window(WindowMetric::IdleGapMs), GroupBy::Ungrouped)),
        ExplorerPreset::BurstPayload => Some((AxisMetric::TimeMs, AxisMetric::Window(WindowMetric::BurstPayload), GroupBy::Direction)),
        ExplorerPreset::ConnectedFootprint => Some((AxisMetric::TimeMs, AxisMetric::Sector, GroupBy::Direction)),
        ExplorerPreset::CommandTimeline => Some((AxisMetric::TimeMs, AxisMetric::Timeline(TimelineMode::Commands), GroupBy::Direction)),
        ExplorerPreset::RequestGantt => Some((AxisMetric::TimeMs, AxisMetric::Timeline(TimelineMode::Requests), GroupBy::Direction)),
        ExplorerPreset::CpuEvents => Some((AxisMetric::TimeMs, AxisMetric::Timeline(TimelineMode::Cpus), GroupBy::Direction)),
        ExplorerPreset::SchedulerIoWait => Some((AxisMetric::TimeMs, AxisMetric::SchedulerIoWait, GroupBy::Ungrouped)),
    }
}

impl ExplorerPreset {
    pub fn label(self) -> (r: &'static str)
        ensures
            r@ == preset_label(self),
    {
        match self {
            ExplorerPreset::LatencyTimeline => "Latency over time",
            ExplorerPreset::LatencyByFile => "Latency by file",
            ExplorerPreset::QueuePressure => "Queue depth vs latency",
            ExplorerPreset::LayerContribution => "Filesystem vs UFS",
            ExplorerPreset::LbaDistribution => "LBA distribution",
            ExplorerPreset::Custom => "Custom",
            ExplorerPreset::ChunkTimeline => "Chunk size over time",
            ExplorerPreset::QueueTimeline => "Queue depth over time",
            ExplorerPreset::IssueGapTimeline => "D2D issue gap over time",
            ExplorerPreset::CompletionGapTimeline => "C2C completion gap over time",
            ExplorerPreset::NormalizedLatencyTimeline => "Latency per KiB over time",
            ExplorerPreset::CpuTimeline => "Issue CPU over time",
            ExplorerPreset::WindowBandwidth => "Bandwidth by time window",
            ExplorerPreset::WindowIops => "IOPS by time window",
            ExplorerPreset::CumulativePayload => "Cumulative transferred data",
            ExplorerPreset::WindowBusyPercent => "Device busy % over time",
            ExplorerPreset::WindowBusyMs => "Active time by window",
            ExplorerPreset::WindowIdleMs => "Idle time by window",
            ExplorerPreset::RollingC2cBandwidth => "Rolling C2C bandwidth",
            ExplorerPreset::RollingD2dBandwidth => "Rolling D2D bandwidth",
            ExplorerPreset::BusyIntervals => "Continuous busy intervals",
            ExplorerPreset::IdleIntervals => "Continuous idle intervals",
            ExplorerPreset::BurstPayload => "Cumulative data within bursts",
            ExplorerPreset::ConnectedFootprint => "Connected LBA footprint",
            ExplorerPreset::CommandTimeline => "Block command timeline",
            ExplorerPreset::RequestGantt => "Request Gantt",
            ExplorerPreset::CpuEvents => "Issue / completion CPU timeline",
            ExplorerPreset::SchedulerIoWait => "Scheduler I/O wait over time",
        }
    }

    pub fn query(self) -> (r: Option<(AxisMetric, AxisMetric, GroupBy)>)
        ensures
            r == preset_query(self),
    {
        match self {
            ExplorerPreset::LatencyTimeline => Some((AxisMetric::TimeMs, AxisMetric::TotalLatencyMs, GroupBy::Direction)),
            ExplorerPreset::LatencyByFile => Some((AxisMetric::TimeMs, AxisMetric::TotalLatencyMs, GroupBy::File)),
            ExplorerPreset::QueuePressure => Some((AxisMetric::QueueDepth, AxisMetric::TotalLatencyMs, GroupBy::Direction)),
            ExplorerPreset::LayerContribution => Some((AxisMetric::FilesystemLatencyMs, AxisMetric::UfsLatencyMs, GroupBy::File)),
            ExplorerPreset::LbaDistribution => Some((AxisMetric::TimeMs, AxisMetric::Sector, GroupBy::Direction)),
            ExplorerPreset::Custom => None,
            ExplorerPreset::ChunkTimeline => Some((AxisMetric::TimeMs, AxisMetric::ChunkKiB, GroupBy::Direction)),
            ExplorerPreset::QueueTimeline => Some((AxisMetric::TimeMs, AxisMetric::IssueQueueDepth, GroupBy::Direction)),
            ExplorerPreset::IssueGapTimeline => Some((AxisMetric::TimeMs, AxisMetric::IssueGapMs, GroupBy::Direction)),
            ExplorerPreset::CompletionGapTimeline => Some((AxisMetric::TimeMs, AxisMetric::CompletionGapMs, GroupBy::Direction)),
            ExplorerPreset::NormalizedLatencyTimeline => Some((AxisMetric::TimeMs, AxisMetric::LatencyPerKiB, GroupBy::Direction)),
            ExplorerPreset::CpuTimeline => Some((AxisMetric::TimeMs, AxisMetric::IssueCpu, GroupBy::Process)),
            ExplorerPreset::WindowBandwidth => Some((AxisMetric::TimeMs, AxisMetric::Window(WindowMetric::Bandwidth), GroupBy::Direction)),
            ExplorerPreset::WindowIops => Some((AxisMetric::TimeMs, AxisMetric::Window(WindowMetric::Iops), GroupBy::Direction)),
            ExplorerPreset::CumulativePayload => Some((AxisMetric::TimeMs, AxisMetric::Window(WindowMetric::CumulativePayload), GroupBy::Direction)),
            ExplorerPreset::WindowBusyPercent => Some((AxisMetric::TimeMs, AxisMetric::Window(WindowMetric::BusyPercent), GroupBy::Ungrouped)),
            ExplorerPreset::WindowBusyMs => Some((AxisMetric::TimeMs, AxisMetric::Window(WindowMetric::BusyMs), GroupBy::Ungrouped)),
            ExplorerPreset::WindowIdleMs => Some((AxisMetric::TimeMs, AxisMetric::Window(WindowMetric::IdleMs), GroupBy::Ungrouped)),
            ExplorerPreset::RollingC2cBandwidth => Some((AxisMetric::TimeMs, AxisMetric::RollingC2cBandwidth, GroupBy::Direction)),
            ExplorerPreset::RollingD2dBandwidth => Some((AxisMetric::TimeMs, AxisMetric::RollingD2dBandwidth, GroupBy::Direction)),
            ExplorerPreset::BusyIntervals => Some((AxisMetric::TimeMs, AxisMetric::Window(WindowMetric::BusyRunMs), GroupBy::Ungrouped)),
            ExplorerPreset::IdleIntervals => Some((AxisMetric::TimeMs, AxisMetric::Window(WindowMetric::IdleGapMs), GroupBy::Ungrouped)),
            ExplorerPreset::BurstPayload => Some((AxisMetric::TimeMs, AxisMetric::Window(WindowMetric::BurstPayload), GroupBy::Direction)),
            ExplorerPreset::ConnectedFootprint => Some((AxisMetric::TimeMs, AxisMetric::Sector, GroupBy::Direction)),
            ExplorerPreset::CommandTimeline => Some((AxisMetric::TimeMs, AxisMetric::Timeline(TimelineMode::Commands), GroupBy::Direction)),
            ExplorerPreset::RequestGantt => Some((AxisMetric::TimeMs, AxisMetric::Timeline(TimelineMode::Requests), GroupBy::Direction)),
            ExplorerPreset::CpuEvents => Some((AxisMetric::TimeMs, AxisMetric::Timeline(TimelineMode::Cpus), GroupBy::Direction)),
            ExplorerPreset::SchedulerIoWait => Some((AxisMetric::TimeMs, AxisMetric::SchedulerIoWait, GroupBy::Ungrouped)),
        }
    }
}

#[derive(Debug, Clone, Copy, PartialEq, Eq, Structural)]
pub enum CapturePhase {
    Ready,
    Preparing,
    Recording,
    Stopping,
    Analyzing,
    Complete,
    Error,
}

pub open spec fn phase_label(p: CapturePhase) -> Seq<char> {
    match p {
        CapturePhase::Ready => "Ready"@,
        CapturePhase::Preparing => "Preparing"@,
        CapturePhase::Recording => "Recording"@,
        CapturePhase::Stopping => "Stopping"@,
        CapturePhase::Analyzing => "Analyzing"@,
        CapturePhase::Complete => "Complete"@,
        CapturePhase::Error => "Error"@,
    }
}

impl CapturePhase {
    /// A capture is under way: preparing, recording, stopping or analyzing.
    pub fn busy(self) -> (r: bool)
        ensures
            r == (self == CapturePhase::Preparing || self == CapturePhase::Recording
                || self == CapturePhase::Stopping || self == CapturePhase::Analyzing),
    {
        match self {
            CapturePhase::Preparing | CapturePhase::Recording | CapturePhase::Stopping | CapturePhase::Analyzing => true,
            _ => false,
        }
    }

    pub fn label(self) -> (r: &'static str)
        ensures
            r@ == phase_label(self),
    {
        match self {
            CapturePhase::Ready => "Ready",
            CapturePhase::Preparing => "Preparing",
            CapturePhase::Recording => "Recording",
            CapturePhase::Stopping => "Stopping",
            CapturePhase::Analyzing => "Analyzing",
            CapturePhase::Complete => "Complete",
            CapturePhase::Error => "Error",
        }
    }
}

impl Default for CapturePhase {
    fn default() -> (r: Self)
        ensures
            r == CapturePhase::Ready,
    {
        CapturePhase::Ready
    }
}

/// Positions picked from `0..length`: all of them when they fit within
/// `limit`, else `limit` positions spread evenly as `i * length / limit`.
pub open spec fn sample_positions(length: nat, limit: nat) -> Seq<usize> {
    if length <= limit {
        Seq::new(length, |i: int| i as usize)
    } else {
        Seq::new(limit, |i: int| (i * length / (limit as int)) as usize)
    }
}

pub fn evenly_sample_indices(length: usize, limit: usize) -> (r: Vec<usize>)
    requires
        length > limit ==> (limit - 1) * length <= usize::MAX,
    ensures
        r@ == sample_positions(length as nat, limit as nat),
{
    let mut r: Vec<usize> = Vec::new();
    if length <= limit {
        let mut i: usize = 0;
        while i < length
            invariant
                i <= length,
                r@ == Seq::new(i as nat, |k: int| k as usize),
            decreases length - i,
        {
            r.push(i);
            i += 1;
            assert(r@ =~= Seq::new(i as nat, |k: int| k as usize));
        }
        return r;
    }
    let mut i: usize = 0;
    while i < limit
        invariant
            i <= limit < length,
            (limit - 1) * length <= usize::MAX,
            r@ == Seq::new(i as nat, |k: int| (k * length / (limit as int)) as usize),
        decreases limit - i,
    {
        assert(i * length <= (limit - 1) * length) by (nonlinear_arith)
            requires i < limit, 0 <= length;
        let v = i * length / limit;
        r.push(v);
        i += 1;
        assert(r@ =~= Seq::new(i as nat, |k: int| (k * length / (limit as int)) as usize));
    }
    r
}

/// Sampling is bounded by `limit`, starts at the first position, strictly
/// increases, stays within the session and reaches its last stretch.
pub proof fn law_sampling_spans_session(length: nat, limit: nat)
    requires
        limit > 0,
        length <= usize::MAX,
        (limit - 1) * length <= usize::MAX,
    ensures
        sample_positions(length, limit).len() == (if length <= limit { length } else { limit }),
        length > 0 ==> sample_positions(length, limit)[0] == 0,
        forall|i: int, j: int| 0 <= i < j < sample_positions(length, limit).len()
            ==> #[trigger] sample_positions(length, limit)[i] < #[trigger] sample_positions(length, limit)[j],
        forall|i: int| 0 <= i < sample_positions(length, limit).len() ==> #[trigger] sample_positions(length, limit)[i] < length,
        length > limit ==> sample_positions(length, limit).last() + length / limit + 1 >= length,
{
    let s = sample_positions(length, limit);
    if length > limit {
        let m = limit as int;
        let l = length as int;
        assert forall|i: int| 0 <= i < m implies 0 <= #[trigger] (i * l / m) < l && i * l / m <= usize::MAX by {
            assert(0 <= i * l / m < l && i * l / m <= (m - 1) * l) by (nonlinear_arith)
                requires 0 <= i < m, m < l;
        }
        assert forall|i: int, j: int| 0 <= i < j < s.len() implies #[trigger] s[i] < #[trigger] s[j] by {
            assert(0 <= i * l / m <= usize::MAX);
            assert(0 <= j * l / m <= usize::MAX);
            assert(i * l / m < j * l / m) by (nonlinear_arith)
                requires 0 <= i < j, 0 < m < l;
        }
        assert((m - 1) * l / m + l / m + 1 >= l) by (nonlinear_arith)
            requires 0 < m < l;
        assert(s.last() == s[m - 1]);
    }
}

/// Categorical axes: what a completed request is grouped by on a category
/// plot.
#[derive(Debug, Clone, Copy, PartialEq, Eq, Structural)]
pub enum CategoryAxis {
    Command,
    Access,
    Size,
    Device,
    Process,
    File,
    Confidence,
}

pub open spec fn category_label(c: CategoryAxis) -> Seq<char> {
    match c {
        CategoryAxis::Command => "Command"@,
        CategoryAxis::Access => "Access pattern"@,
        CategoryAxis::Size => "Size class"@,
        CategoryAxis::Device => "Device"@,
        CategoryAxis::Process => "Process"@,
        CategoryAxis::File => "File candidate set"@,
        CategoryAxis::Confidence => "Attribution confidence"@,
    }
}

impl CategoryAxis {
    pub fn label(self) -> (r: &'static str)
        ensures
            r@ == category_label(self),
    {
        match self {
            CategoryAxis::Command => "Command",
            CategoryAxis::Access => "Access pattern",
            CategoryAxis::Size => "Size class",
            CategoryAxis::Device => "Device",
            CategoryAxis::Process => "Process",
            CategoryAxis::File => "File candidate set",
            CategoryAxis::Confidence => "Attribution confidence",
        }
    }

    /// Categories that need file attribution from the transaction graph.
    pub fn needs_graph(self) -> (r: bool)
        ensures
            r == (self == CategoryAxis::File || self == CategoryAxis::Confidence),
    {
        match self {
            CategoryAxis::File | CategoryAxis::Confidence => true,
            _ => false,
        }
    }
}

/// How the connected footprint view splits its lanes.
#[derive(Debug, Clone, Copy, PartialEq, Eq, Structural)]
pub enum FootprintMode {
    Combined,
    FilePath,
    Process,
    FileProcess,
}

pub open spec fn footprint_label(m: FootprintMode) -> Seq<char> {
    match m {
        FootprintMode::Combined => "Combined"@,
        FootprintMode::FilePath => "FilePath lanes"@,
        FootprintMode::Process => "Block issuer Process lanes"@,
        FootprintMode::FileProcess => "File I/O Process candidate lanes"@,
    }
}

impl FootprintMode {
    pub fn label(self) -> (r: &'static str)
        ensures
            r@ == footprint_label(self),
    {
        match self {
            FootprintMode::Combined => "Combined",
            FootprintMode::FilePath => "FilePath lanes",
            FootprintMode::Process => "Block issuer Process lanes",
            FootprintMode::FileProcess => "File I/O Process candidate lanes",
        }
    }
}

impl Default for FootprintMode {
    fn default() -> (m: Self)
        ensures
            m == FootprintMode::Combined,
    {
        FootprintMode::Combined
    }
}

} // verus!
