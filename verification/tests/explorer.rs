use ebpf_studio::explorer::{
    evenly_sample_indices, AxisMetric, CapturePhase, CategoryAxis, ExplorerPreset, FootprintMode, GroupBy, TimelineMode,
    WindowMetric,
};

#[test]
fn explorer_sampling_is_bounded_and_spans_the_session() {
    let indices = evenly_sample_indices(100_000, 2_000);
    assert_eq!(indices.len(), 2_000);
    assert_eq!(indices[0], 0);
    assert!(indices.last().is_some_and(|index| *index >= 99_900));
    assert!(indices.windows(2).all(|pair| pair[0] < pair[1]));
}

#[test]
fn explorer_presets_select_stable_queries() {
    assert_eq!(
        ExplorerPreset::LatencyByFile.query(),
        Some((AxisMetric::TimeMs, AxisMetric::TotalLatencyMs, GroupBy::File))
    );
    assert_eq!(
        ExplorerPreset::QueuePressure.query(),
        Some((AxisMetric::QueueDepth, AxisMetric::TotalLatencyMs, GroupBy::Direction))
    );
    assert_eq!(ExplorerPreset::Custom.query(), None);
}

#[test]
fn short_sessions_are_sampled_whole() {
    assert_eq!(evenly_sample_indices(5, 10), vec![0, 1, 2, 3, 4]);
    assert_eq!(evenly_sample_indices(0, 10), Vec::<usize>::new());
    assert_eq!(evenly_sample_indices(10, 4), vec![0, 2, 5, 7]);
    assert_eq!(evenly_sample_indices(10, 0), Vec::<usize>::new());
}

#[test]
fn storage_address_axes_and_graph_needs() {
    assert!(AxisMetric::Sector.is_storage_address());
    assert!(AxisMetric::AddressKiB.is_storage_address());
    assert!(!AxisMetric::TimeMs.is_storage_address());
    assert!(AxisMetric::UfsLatencyMs.needs_graph());
    assert!(!AxisMetric::QueueDepth.needs_graph());
    assert!(GroupBy::Origin.needs_graph());
    assert!(!GroupBy::Direction.needs_graph());
}

#[test]
fn labels_and_window_queries() {
    assert_eq!(ExplorerPreset::LayerContribution.label(), "Filesystem vs UFS");
    assert_eq!(AxisMetric::QueueDepth.label(), Some("QD after completion (all devices)"));
    assert_eq!(AxisMetric::Window(WindowMetric::Iops).label(), None);
    assert_eq!(GroupBy::Ungrouped.label(), "None");
    assert_eq!(
        ExplorerPreset::RequestGantt.query(),
        Some((AxisMetric::TimeMs, AxisMetric::Timeline(TimelineMode::Requests), GroupBy::Direction))
    );
    assert_eq!(
        ExplorerPreset::WindowIdleMs.query(),
        Some((AxisMetric::TimeMs, AxisMetric::Window(WindowMetric::IdleMs), GroupBy::Ungrouped))
    );
}

#[test]
fn capture_phases_report_busy_work() {
    assert!(!CapturePhase::Ready.busy());
    assert!(CapturePhase::Recording.busy());
    assert!(CapturePhase::Analyzing.busy());
    assert!(!CapturePhase::Error.busy());
    assert_eq!(CapturePhase::Stopping.label(), "Stopping");
    assert_eq!(CapturePhase::default(), CapturePhase::Ready);
}

#[test]
fn category_axes_label_and_need_attribution_only_for_files() {
    assert_eq!(CategoryAxis::Access.label(), "Access pattern");
    assert_eq!(CategoryAxis::File.label(), "File candidate set");
    assert!(CategoryAxis::File.needs_graph());
    assert!(CategoryAxis::Confidence.needs_graph());
    assert!(!CategoryAxis::Device.needs_graph());
}

#[test]
fn footprint_mode_defaults_to_combined_lanes() {
    assert_eq!(FootprintMode::default(), FootprintMode::Combined);
    assert_eq!(FootprintMode::FileProcess.label(), "File I/O Process candidate lanes");
    assert_eq!(FootprintMode::Process.label(), "Block issuer Process lanes");
}
