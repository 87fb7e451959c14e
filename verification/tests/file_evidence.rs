use ebpf_studio::file_evidence::{related_file_positions, CohortRequest, FileEvidence, FileIdentity};

fn identity(inode: u64) -> FileIdentity {
    FileIdentity { fs_device_major: 8, fs_device_minor: 0, inode, inode_generation: None, mount_id: None }
}

fn file(start: u64, end: u64, pid: u32, id: Option<FileIdentity>) -> FileEvidence {
    FileEvidence { start_ts_ns: start, end_ts_ns: end, pid, tid: pid, file_identity: id }
}

fn request(issue: u64, completion: u64, origins: Vec<FileIdentity>) -> CohortRequest {
    CohortRequest {
        issue_ts_ns: issue,
        insert_ts_ns: None,
        completion_ts_ns: completion,
        file_operations: Vec::new(),
        origins,
    }
}

#[test]
fn file_table_follows_the_filtered_request_cohort() {
    let files = vec![file(90, 210, 21, Some(identity(21))), file(90, 210, 22, Some(identity(22)))];
    let cohort = vec![request(100, 200, vec![identity(21)])];
    assert_eq!(related_file_positions(&cohort, &files), vec![0]);
    assert_eq!(related_file_positions(&[], &files), Vec::<usize>::new());
    let both = vec![request(100, 200, vec![identity(21)]), request(100, 200, vec![identity(22)])];
    assert_eq!(related_file_positions(&both, &files), vec![0, 1]);
}

#[test]
fn transaction_graph_names_operations_directly() {
    let files = vec![file(5, 7, 3, None), file(5, 8, 3, None)];
    let mut r = request(100, 200, Vec::new());
    r.file_operations.push((5, 8, 3, 3));
    assert_eq!(related_file_positions(&[r], &files), vec![1]);
}

#[test]
fn identity_match_respects_generation_mount_and_window() {
    let w = 30_000_000_000u64;
    let known = FileIdentity { inode_generation: Some(1), mount_id: Some(4), ..identity(9) };
    let files = vec![
        file(200 + w, 300 + w, 1, Some(identity(9))),
        file(201 + w, 300 + w, 1, Some(identity(9))),
        file(10, 20, 1, Some(FileIdentity { inode_generation: Some(2), ..identity(9) })),
        file(10, 20, 1, Some(FileIdentity { mount_id: Some(5), ..identity(9) })),
        file(10, 20, 1, Some(FileIdentity { inode_generation: Some(1), mount_id: Some(4), ..identity(9) })),
        file(10, 20, 1, Some(FileIdentity { fs_device_minor: 1, ..identity(9) })),
    ];
    let cohort = vec![request(100, 200, vec![known])];
    // The window reaches 30 s past the completion at 200.
    assert_eq!(related_file_positions(&cohort, &files), vec![0, 4]);
}

#[test]
fn insert_time_starts_the_window_and_backward_spans_need_full_cover() {
    let w = 30_000_000_000u64;
    let mut r = request(5 * w, 5 * w + 10, vec![identity(1)]);
    r.insert_ts_ns = Some(4 * w);
    let before_insert = file(3 * w - 1, 3 * w - 1, 1, Some(identity(1)));
    let at_window = file(3 * w, 3 * w, 1, Some(identity(1)));
    assert_eq!(related_file_positions(&[r], &[before_insert, at_window]), vec![1]);

    // An operation ending before it starts needs its whole span covered.
    let a = request(10 * w, 10 * w, vec![identity(2)]);
    let b = request(12 * w, 12 * w, vec![identity(2)]);
    let gap = request(20 * w, 20 * w, vec![identity(2)]);
    let backward_covered = file(11 * w + 5, 9 * w + 5, 1, Some(identity(2)));
    let backward_gap = file(19 * w + 5, 12 * w + 5, 1, Some(identity(2)));
    assert_eq!(
        related_file_positions(&[a, b, gap], &[backward_covered, backward_gap]),
        vec![0]
    );
}
