use parchmint::document::{
    ContentFingerprint, DocumentId, RecoveryRecord, RecoveryStore, RECOVERY_FORMAT_VERSION,
};
use parchmint::recovery::{is_recovery_file, RecoveryEntry};
use std::path::PathBuf;

fn record(document: u128, revision: u64, body: &str) -> RecoveryRecord {
    RecoveryRecord {
        format_version: RECOVERY_FORMAT_VERSION,
        project_generation: 1,
        document_id: DocumentId(document),
        revision,
        base_fingerprint: ContentFingerprint::of(""),
        body_fingerprint: ContentFingerprint::of(body),
        created_unix_ms: 0,
        body: body.to_string(),
    }
}

fn entry(name: &str, document: u128, revision: u64, body: &str, canonical: Option<&str>) -> RecoveryEntry {
    RecoveryEntry::Record {
        path: PathBuf::from(name),
        record: record(document, revision, body),
        canonical_fingerprint: canonical.map(ContentFingerprint::of),
    }
}

#[test]
fn only_toml_files_are_records() {
    assert!(is_recovery_file(Some("toml")));
    assert!(!is_recovery_file(Some("tmp")));
    assert!(!is_recovery_file(Some("TOML")));
    assert!(!is_recovery_file(None));
}

#[test]
fn a_bad_record_never_hides_a_recoverable_document() {
    let entries = vec![
        RecoveryEntry::Unreadable { path: PathBuf::from("a.toml"), message: "invalid".to_string() },
        entry("b.toml", 7, 2, "newer text", Some("older text")),
        entry("c.toml", 3, 9, "same text", Some("same text")),
        entry("d.toml", 3, 4, "lost text", None),
        RecoveryEntry::Unreadable { path: PathBuf::from("e.toml"), message: "too large".to_string() },
        entry("f.toml", 7, 1, "draft", Some("older text")),
    ];
    let scan = RecoveryStore::scan_isolated(entries);
    let order: Vec<(u128, u64)> = scan
        .candidates
        .iter()
        .map(|c| (c.record.document_id.0, c.record.revision))
        .collect();
    assert_eq!(order, vec![(3, 4), (7, 1), (7, 2)]);
    assert_eq!(scan.candidates[0].canonical_fingerprint, None);
    assert_eq!(scan.candidates[2].path, PathBuf::from("b.toml"));
    let issues: Vec<(PathBuf, String)> =
        scan.issues.iter().map(|i| (i.path.clone(), i.message.clone())).collect();
    assert_eq!(
        issues,
        vec![
            (PathBuf::from("a.toml"), "invalid".to_string()),
            (PathBuf::from("e.toml"), "too large".to_string()),
        ]
    );
}

#[test]
fn an_empty_folder_has_nothing_to_recover() {
    let scan = RecoveryStore::scan_isolated(Vec::new());
    assert!(scan.candidates.is_empty());
    assert!(scan.issues.is_empty());
}
