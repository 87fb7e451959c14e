use ebpf_studio::diagnostics::{redact_detail, sanitize_detail};

#[test]
fn detail_paths_are_redacted_and_other_words_kept() {
    assert_eq!(
        redact_detail("open  /data/local/tmp/x failed\tat C:\\Users\\me and rel/data/y ok"),
        "open <redacted-path> failed at <redacted-path> and <redacted-path> ok"
    );
    assert_eq!(redact_detail("see /sdcard/a and x/storage/emulated"), "see <redacted-path> and <redacted-path>");
    assert_eq!(redact_detail("ratio 3:4 and D:drive"), "ratio 3:4 and D:drive");
    assert_eq!(redact_detail("é:/x"), "é:/x");
    assert_eq!(redact_detail("   "), "");
}

#[test]
fn missing_detail_stays_missing() {
    assert_eq!(sanitize_detail(None), None);
    assert_eq!(sanitize_detail(Some("/data/app".into())), Some("<redacted-path>".into()));
}
