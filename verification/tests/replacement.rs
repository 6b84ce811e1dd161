use parchmint::document::ContentFingerprint;
use parchmint::replacement::{replacement_rollback, ProjectReplaceUndo, ReplaceUpdate};

fn update(node: u128, original: &str, output: &str) -> ReplaceUpdate {
    ReplaceUpdate { node, original: original.to_string(), output: output.to_string() }
}

fn updates() -> Vec<ReplaceUpdate> {
    vec![
        update(3, "mist on the hill\n", "fog on the hill\n"),
        update(9, "MIST and mist\n", "MIST and fog\n"),
        update(12, "old mist\n", "old fog\n"),
    ]
}

#[test]
fn the_undo_record_keeps_originals_replacements_and_fingerprints() {
    let undo = ProjectReplaceUndo::from_updates(&updates());
    assert_eq!(undo.originals[1], (9, "MIST and mist\n".to_string()));
    assert_eq!(undo.replacements[2], (12, "old fog\n".to_string()));
    assert_eq!(undo.expected[0], (3, ContentFingerprint::of("fog on the hill\n")));
    assert_eq!(undo.expected.len(), 3);
}

#[test]
fn an_undo_is_stopped_by_the_first_changed_document() {
    let undo = ProjectReplaceUndo::from_updates(&updates());
    let unchanged = vec![
        Some(ContentFingerprint::of("fog on the hill\n")),
        Some(ContentFingerprint::of("MIST and fog\n")),
        Some(ContentFingerprint::of("old fog\n")),
    ];
    assert_eq!(undo.undo_conflict(&unchanged), None);
    let changed = vec![
        Some(ContentFingerprint::of("fog on the hill\n")),
        Some(ContentFingerprint::of("edited since\n")),
        Some(ContentFingerprint::of("also edited\n")),
    ];
    assert_eq!(undo.undo_conflict(&changed), Some(9));
}

#[test]
fn an_unreadable_document_does_not_stop_an_undo() {
    let undo = ProjectReplaceUndo::from_updates(&updates());
    let disk = vec![None, Some(ContentFingerprint::of("MIST and fog\n")), None];
    assert_eq!(undo.undo_conflict(&disk), None);
}

#[test]
fn a_failed_undo_rewrites_the_restored_documents_newest_first() {
    let undo = ProjectReplaceUndo::from_updates(&updates());
    assert_eq!(undo.undo_rollback(0), Vec::new());
    assert_eq!(
        undo.undo_rollback(2),
        vec![(9, "MIST and fog\n".to_string()), (3, "fog on the hill\n".to_string())]
    );
}

#[test]
fn a_failed_replacement_restores_the_written_documents_newest_first() {
    assert_eq!(
        replacement_rollback(&updates(), 2),
        vec![(9, "MIST and mist\n".to_string()), (3, "mist on the hill\n".to_string())]
    );
    assert_eq!(replacement_rollback(&updates(), 0), Vec::new());
}
