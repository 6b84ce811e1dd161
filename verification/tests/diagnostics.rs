use parchmint::diagnostics::{diagnostics_report, DiagnosticsSnapshot};

#[test]
fn report_is_local_explicit_and_contains_no_content_or_path_field() {
    let report = diagnostics_report(
        &DiagnosticsSnapshot {
            project_open: true,
            node_count: 42,
            workspace_warning: Some("line one\nline two".into()),
            index_warning: None,
        },
        "0.1.0",
        "linux",
        "x86_64",
    );
    assert!(report.contains("node_count=42"));
    assert!(report.contains("network_upload=disabled"));
    assert!(report.contains("project_paths_included=false"));
    assert!(!report.contains("line one\nline two"));
}

#[test]
fn report_has_the_exact_schema() {
    let report = diagnostics_report(
        &DiagnosticsSnapshot {
            project_open: false,
            node_count: 0,
            workspace_warning: None,
            index_warning: Some("stale\r\nindex".into()),
        },
        "1.2.3",
        "macos",
        "aarch64",
    );
    assert_eq!(
        report,
        "ParchMint diagnostics\nversion=1.2.3\nos=macos\narch=aarch64\nproject_open=false\nnode_count=0\nworkspace_warning=none\nindex_warning=stale  index\nnetwork_upload=disabled\ncontent_included=false\nproject_paths_included=false\n"
    );
}
