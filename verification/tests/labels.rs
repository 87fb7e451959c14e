use ebpf_studio::host_bw::IoOperation;
use ebpf_studio::labels::{
    access_label, capture_mode_label, confidence_label, diagnostic_level_arg, edge_confidence_label,
    file_group_key, file_origin_tooltip, operation_label, pipeline_layer_label, size_label, AccessPattern,
    CaptureMode, CorrelationConfidence, DiagnosticLevel, EdgeConfidence, FileOrigin, IoSizeClass,
    PipelineLayer,
};

fn origin(path: Option<&str>, confidence: EdgeConfidence) -> FileOrigin {
    FileOrigin {
        path: path.map(String::from),
        fallback_label: "inode 93844 on 254:11".into(),
        confidence,
    }
}

#[test]
fn file_group_uses_path_and_preserves_multiple_origins() {
    let origin = FileOrigin {
        path: Some("/data/test.bin".into()),
        fallback_label: "inode 42 on 259:7".into(),
        confidence: EdgeConfidence::Probable,
    };
    assert_eq!(file_group_key(std::slice::from_ref(&origin)), "/data/test.bin");
    assert_eq!(file_group_key(&[origin.clone(), origin]), "Multiple files (2)");
    assert_eq!(file_group_key(&[]), "Unattributed");
}

#[test]
fn lba_hover_tooltip_shows_path_confidence_and_identity_fallback() {
    let attributed = origin(Some("/data/local/tmp/test.bin"), EdgeConfidence::Exact);
    assert_eq!(
        file_origin_tooltip(std::slice::from_ref(&attributed)),
        "File:\n  /data/local/tmp/test.bin [Exact]"
    );
    let unresolved = origin(None, EdgeConfidence::Probable);
    let tooltip = file_origin_tooltip(&[unresolved]);
    assert!(tooltip.contains("<path unresolved>"));
    assert!(tooltip.contains("254:11"));
    assert!(tooltip.contains("93844"));
    assert!(tooltip.contains("[Probable]"));
}

#[test]
fn tooltip_lists_four_files_flattens_line_breaks_and_counts_the_rest() {
    let files: Vec<FileOrigin> = (0..6)
        .map(|i| origin(Some(&format!("/f{i}\r\nx")), EdgeConfidence::ProbableAsync))
        .collect();
    assert_eq!(
        file_origin_tooltip(&files),
        "Files (6):\n  /f0  x [Probable async]\n  /f1  x [Probable async]\n  /f2  x [Probable async]\n  /f3  x [Probable async]\n  +2 more"
    );
    let empty_path = origin(Some(""), EdgeConfidence::ContextOnly);
    assert_eq!(
        file_origin_tooltip(&[empty_path]),
        "File:\n  <path unresolved> · inode 93844 on 254:11 · no matching path snapshot [Context only]"
    );
    assert_eq!(
        file_origin_tooltip(&[]),
        "File: <unattributed>\nReason: no observed file identity or defensible file correlation for this request"
    );
}

#[test]
fn classification_labels() {
    assert_eq!(operation_label(IoOperation::Discard), "Discard");
    assert_eq!(access_label(AccessPattern::Sequential), "Sequential");
    assert_eq!(size_label(IoSizeClass::Large), "Large (≥32 KiB)");
    assert_eq!(confidence_label(CorrelationConfidence::ContextOnly), "Context only");
    assert_eq!(edge_confidence_label(EdgeConfidence::ProbableAsync), "Probable async");
    assert_eq!(diagnostic_level_arg(DiagnosticLevel::Warn), "warn");
    assert_eq!(capture_mode_label(CaptureMode::RawAll), "RawAll · every event");
    assert_eq!(pipeline_layer_label(PipelineLayer::BlockQueue), "Kernel / Block Queue");
}
