use parchmint::document::{
    check_work_current, CanonicalSaveAction, CanonicalSaveRequest, CanonicalSaveStage,
    CompletionDisposition, ContentFingerprint, DirtyBlocks, DocumentId,
    DocumentLifecycleConfig, DocumentLifecycleError, DocumentSession, EditorMode, ExternalChange,
    ParseDiagnostic, ParsedBody, PersistenceFault, RecoveryCandidate, RecoveryRecord,
    RecoveryStore, SaveState, SourceParseStatus, WorkStamp, RECOVERY_FORMAT_VERSION,
};
use std::path::PathBuf;

/// A parse with one paragraph per non-empty line and no diagnostics.
fn parsed(body: &str) -> ParsedBody {
    ParsedBody {
        block_count: body.lines().filter(|line| !line.is_empty()).count(),
        diagnostics: Vec::new(),
        serialized: body.to_string(),
    }
}

/// The parse of an unclosed code fence: it parses, with an error diagnostic.
fn unclosed_fence(body: &str) -> ParsedBody {
    ParsedBody {
        block_count: 1,
        diagnostics: vec![ParseDiagnostic {
            message: "unclosed code fence".to_string(),
            error: true,
        }],
        serialized: body.to_string(),
    }
}

fn open_session(id: u128, generation: u64, config: DocumentLifecycleConfig) -> DocumentSession {
    DocumentSession::open(
        DocumentId(id),
        generation,
        "Original.\n".to_string(),
        Ok(parsed("Original.\n")),
        config,
    )
    .unwrap()
}

fn immediate() -> DocumentLifecycleConfig {
    DocumentLifecycleConfig {
        journal_debounce_millis: 0,
        rotating_backups: 2,
    }
}

#[test]
fn journal_precedes_save_and_stale_completions_never_acknowledge() {
    let mut session = open_session(1, 1, immediate());
    let now = 1_000;
    session
        .replace_block(0, None, Ok(parsed("First\n")), now)
        .unwrap();
    assert!(matches!(
        session.prepare_canonical_save(None),
        Err(DocumentLifecycleError::JournalRequired(_))
    ));
    let journal = session.prepare_journal(now, false).unwrap();
    assert!(journal.check_before_write(None).is_ok());
    assert_eq!(
        session.acknowledge_journal(journal.stamp, Ok(())),
        CompletionDisposition::Applied
    );
    let save = session.prepare_canonical_save(None).unwrap().unwrap();
    session
        .replace_block(0, None, Ok(parsed("Newer\n")), now)
        .unwrap();
    assert_eq!(
        session.acknowledge_canonical_save(save.stamp, Ok(ContentFingerprint::of(&save.body))),
        CompletionDisposition::Stale
    );
    assert!(session.is_dirty());
    assert!(matches!(
        save.check_before_write(session.stamp(), save.expected_disk_fingerprint, None),
        Err(DocumentLifecycleError::StaleWork(_))
    ));
}

#[test]
fn invalid_raw_buffer_is_retained_until_explicit_resolution() {
    let mut session = open_session(2, 3, DocumentLifecycleConfig::default());
    session.enter_source_mode(None).unwrap();
    session
        .update_raw_source(
            "```\nunclosed".to_string(),
            Ok(unclosed_fence("```\nunclosed")),
            5_000,
        )
        .unwrap();
    assert!(matches!(
        session.raw_status(),
        SourceParseStatus::Invalid { .. }
    ));
    assert!(session
        .exit_source_mode(Ok(unclosed_fence("```\nunclosed")))
        .is_err());
    assert_eq!(session.mode(), EditorMode::Source);
    assert_eq!(session.raw_buffer(), Some("```\nunclosed"));
    let journal = session.prepare_journal(5_000, true).unwrap();
    session.acknowledge_journal(journal.stamp, Ok(()));
    assert!(matches!(
        session.prepare_canonical_save(Some(Ok(unclosed_fence("```\nunclosed")))),
        Err(DocumentLifecycleError::InvalidRawSource(_))
    ));
    session.discard_raw_changes().unwrap();
    assert_eq!(session.mode(), EditorMode::Wysiwyg);
}

#[test]
fn utf16_text_delta_updates_only_the_changed_range_and_exact_counts() {
    let mut session = open_session(3, 3, DocumentLifecycleConfig::default());
    let applied = session
        .apply_text_delta(0, 8, "雪 and river", 0, 1, 10)
        .unwrap();
    assert_eq!(session.body(), "雪 and river.\n");
    assert_eq!(applied.counts.words, 2);
    assert_eq!(applied.counts.characters, 3);
    assert!(session.is_dirty());
}

#[test]
fn invalid_live_wysiwyg_text_is_journaled_and_vetoes_canonical_save() {
    let mut session = open_session(4, 31, DocumentLifecycleConfig::default());
    let invalid = "```\nunclosed";
    session
        .replace_body(
            invalid.to_string(),
            Err("unclosed code fence".to_string()),
            0,
            1,
            20,
        )
        .unwrap();
    assert_eq!(session.body(), invalid);
    assert!(matches!(
        session.raw_status(),
        SourceParseStatus::Invalid { .. }
    ));

    let journal = session.prepare_journal(20, true).unwrap();
    let recovered = journal.record(1_700_000_000_000);
    assert!(recovered.check().is_ok());
    assert_eq!(recovered.body, invalid);
    session.acknowledge_journal(journal.stamp, Ok(()));
    assert!(matches!(
        session.prepare_canonical_save(Some(Err("unclosed code fence".to_string()))),
        Err(DocumentLifecycleError::InvalidRawSource(_))
    ));
    assert!(matches!(session.save_state(), SaveState::Error(_)));
}

#[test]
fn external_change_auto_reloads_clean_but_conflicts_with_dirty() {
    let mut session = open_session(5, 4, DocumentLifecycleConfig::default());
    assert!(matches!(
        session
            .observe_external_body("External.\n".to_string(), Ok(parsed("External.\n")))
            .unwrap(),
        ExternalChange::AutoReloaded(_)
    ));
    session
        .replace_block(0, None, Ok(parsed("Local\n")), 100)
        .unwrap();
    let ExternalChange::Conflict(conflict) = session
        .observe_external_body("Again.\n".to_string(), Ok(parsed("Again.\n")))
        .unwrap()
    else {
        panic!("dirty external edit must conflict")
    };
    assert!(conflict.local_body.contains("Local"));
    assert!(conflict.external_body.contains("Again"));
    session
        .resolve_external_reload(&conflict, Ok(parsed("Again.\n")))
        .unwrap();
    assert!(session.body().contains("Again"));
    assert!(!session.is_dirty());

    session
        .replace_block(0, None, Ok(parsed("Local overwrite\n")), 200)
        .unwrap();
    let ExternalChange::Conflict(conflict) = session
        .observe_external_body("Second.\n".to_string(), Ok(parsed("Second.\n")))
        .unwrap()
    else {
        panic!("second dirty external edit must conflict")
    };
    session.resolve_external_overwrite(&conflict).unwrap();
    let journal = session.prepare_journal(200, true).unwrap();
    session.acknowledge_journal(journal.stamp, Ok(()));
    let save = session.prepare_canonical_save(None).unwrap().unwrap();
    let third = ContentFingerprint::of("Third.\n");
    assert!(matches!(
        save.check_before_write(save.stamp, third, None),
        Err(DocumentLifecycleError::ExternalChangedDuringSave { .. })
    ));
}

#[test]
fn stale_journal_acknowledgement_changes_nothing() {
    let mut session = open_session(6, 1, immediate());
    session.note_editor_delta(0, 1, 10).unwrap();
    let journal = session.prepare_journal(10, true).unwrap();
    session.note_editor_delta(1, 2, 20).unwrap();
    assert_eq!(
        session.acknowledge_journal(journal.stamp, Ok(())),
        CompletionDisposition::Stale
    );
    assert_eq!(session.journaled_revision(), 0);
    assert_eq!(session.revision(), 2);
}

#[test]
fn acknowledged_save_makes_the_session_clean() {
    let mut session = open_session(7, 1, immediate());
    session
        .replace_body("Changed.\n".to_string(), Ok(parsed("Changed.\n")), 0, 1, 5)
        .unwrap();
    let journal = session.prepare_journal(5, false).unwrap();
    session.acknowledge_journal(journal.stamp, Ok(()));
    assert_eq!(session.journaled_revision(), session.revision());
    let save = session.prepare_canonical_save(None).unwrap().unwrap();
    assert_eq!(*session.save_state(), SaveState::Saving);
    let fingerprint = ContentFingerprint::of(&save.body);
    assert_eq!(
        session.acknowledge_canonical_save(save.stamp, Ok(fingerprint)),
        CompletionDisposition::Applied
    );
    assert!(!session.is_dirty());
    assert_eq!(session.saved_revision(), 1);
    assert!(session.dirty_blocks().ranges().is_empty());
    assert_eq!(*session.save_state(), SaveState::Saved);
    assert!(session.prepare_canonical_save(None).unwrap().is_none());
}

#[test]
fn failed_journal_reports_its_error() {
    let mut session = open_session(8, 1, immediate());
    session.note_editor_delta(0, 1, 10).unwrap();
    let journal = session.prepare_journal(10, true).unwrap();
    assert_eq!(*session.save_state(), SaveState::Journaling);
    session.acknowledge_journal(journal.stamp, Err("disk full".to_string()));
    assert_eq!(
        *session.save_state(),
        SaveState::Error("disk full".to_string())
    );
    assert_eq!(session.journaled_revision(), 0);
}

#[test]
fn journal_waits_for_the_debounce() {
    let config = DocumentLifecycleConfig {
        journal_debounce_millis: 750,
        rotating_backups: 10,
    };
    let mut session = open_session(9, 1, config);
    assert!(!session.journal_due(0));
    session.note_editor_delta(0, 1, 1_000).unwrap();
    assert!(!session.journal_due(1_749));
    assert!(session.journal_due(1_750));
    assert!(session.prepare_journal(1_200, false).is_none());
    assert!(session.prepare_journal(1_200, true).is_some());
}

#[test]
fn default_lifecycle_config_matches_the_documented_values() {
    let config = DocumentLifecycleConfig::default();
    assert_eq!(config.journal_debounce_millis, 750);
    assert_eq!(config.rotating_backups, 10);
}

#[test]
fn text_delta_rejects_offsets_inside_a_surrogate_pair() {
    let mut session = DocumentSession::open(
        DocumentId(10),
        1,
        "a😀b".to_string(),
        Ok(parsed("a😀b")),
        DocumentLifecycleConfig::default(),
    )
    .unwrap();
    assert!(matches!(
        session.apply_text_delta(2, 0, "x", 0, 1, 1),
        Err(DocumentLifecycleError::InvalidTextDelta)
    ));
    assert!(matches!(
        session.apply_text_delta(0, 9, "x", 0, 1, 1),
        Err(DocumentLifecycleError::InvalidTextDelta)
    ));
    assert!(matches!(
        session.apply_text_delta(usize::MAX, 1, "x", 0, 1, 1),
        Err(DocumentLifecycleError::InvalidTextDelta)
    ));
    assert_eq!(session.revision(), 0);
    let applied = session.apply_text_delta(1, 2, "é", 0, 1, 1).unwrap();
    assert_eq!(session.body(), "aéb");
    assert_eq!(applied.revision, 1);
    assert_eq!(applied.counts.characters, 0);
}

#[test]
fn text_delta_counts_words_joined_across_the_edit() {
    let mut session = DocumentSession::open(
        DocumentId(11),
        1,
        "one two".to_string(),
        Ok(parsed("one two")),
        DocumentLifecycleConfig::default(),
    )
    .unwrap();
    let applied = session.apply_text_delta(3, 1, "", 0, 1, 1).unwrap();
    assert_eq!(session.body(), "onetwo");
    assert_eq!(applied.counts.words, -1);
    assert_eq!(applied.counts.characters, -1);
}

#[test]
fn edits_are_refused_in_source_mode() {
    let mut session = open_session(12, 1, DocumentLifecycleConfig::default());
    session.enter_source_mode(None).unwrap();
    assert!(matches!(
        session.note_editor_delta(0, 1, 1),
        Err(DocumentLifecycleError::WrongMode)
    ));
    assert!(matches!(
        session.replace_body("x".to_string(), Ok(parsed("x")), 0, 1, 1),
        Err(DocumentLifecycleError::WrongMode)
    ));
    assert!(matches!(
        session.apply_text_delta(0, 0, "x", 0, 1, 1),
        Err(DocumentLifecycleError::WrongMode)
    ));
    assert!(matches!(
        session.enter_source_mode(None),
        Err(DocumentLifecycleError::WrongMode)
    ));
    assert_eq!(session.revision(), 0);
    assert_eq!(session.undo_epoch(), 1);
}

#[test]
fn valid_source_replaces_the_body_with_its_serialization() {
    let mut session = open_session(13, 1, DocumentLifecycleConfig::default());
    assert_eq!(session.enter_source_mode(None).unwrap(), "Original.\n");
    assert!(matches!(
        session.update_raw_source("# Title".to_string(), Ok(parsed("# Title\n")), 3),
        Ok(SourceParseStatus::Valid(_))
    ));
    assert_eq!(session.body(), "# Title");
    assert!(session.needs_reparse());
    session.exit_source_mode(Ok(parsed("# Title\n"))).unwrap();
    assert_eq!(session.mode(), EditorMode::Wysiwyg);
    assert_eq!(session.body(), "# Title\n");
    assert!(!session.needs_reparse());
    assert_eq!(session.undo_epoch(), 2);
    assert_eq!(session.dirty_blocks().ranges(), &[0..1]);
}

#[test]
fn block_edit_failures_are_reported() {
    let mut session = open_session(14, 1, DocumentLifecycleConfig::default());
    assert!(matches!(
        session.remove_block(4, None, Err("block index out of range".to_string()), 1),
        Err(DocumentLifecycleError::Markdown(_))
    ));
    assert_eq!(session.revision(), 0);
    session
        .apply_text_delta(0, 0, "```\n", 0, 1, 2)
        .unwrap();
    assert!(matches!(
        session.insert_block(0, Some(Err("unclosed fence".to_string())), Ok(parsed("x\n")), 3),
        Err(DocumentLifecycleError::InvalidRawSource(_))
    ));
    assert!(matches!(session.save_state(), SaveState::Error(_)));
}

#[test]
fn unchanged_body_and_conflict_for_another_document() {
    let mut session = open_session(15, 1, DocumentLifecycleConfig::default());
    assert_eq!(
        session
            .replace_body("Original.\n".to_string(), Ok(parsed("Original.\n")), 0, 1, 1)
            .unwrap(),
        0
    );
    assert!(matches!(
        session
            .observe_external_body("Original.\n".to_string(), Ok(parsed("Original.\n")))
            .unwrap(),
        ExternalChange::Unchanged
    ));
    let mut other = open_session(16, 1, DocumentLifecycleConfig::default());
    other.note_editor_delta(0, 1, 1).unwrap();
    let ExternalChange::Conflict(conflict) = other
        .observe_external_body("Else.\n".to_string(), Ok(parsed("Else.\n")))
        .unwrap()
    else {
        panic!("dirty session must conflict")
    };
    assert!(matches!(
        session.resolve_external_overwrite(&conflict),
        Err(DocumentLifecycleError::ConflictDocument)
    ));
    assert!(matches!(
        session.resolve_external_reload(&conflict, Ok(parsed("Else.\n"))),
        Err(DocumentLifecycleError::ConflictDocument)
    ));
}

#[test]
fn open_reports_a_parse_failure() {
    assert!(matches!(
        DocumentSession::open(
            DocumentId(17),
            1,
            "x".to_string(),
            Err("bad front matter".to_string()),
            DocumentLifecycleConfig::default(),
        ),
        Err(DocumentLifecycleError::Markdown(_))
    ));
}

#[test]
fn flush_prepares_journal_and_save_work() {
    let mut session = open_session(18, 2, DocumentLifecycleConfig::default());
    assert!(session.prepare_flush(0, None).is_none());
    session.apply_text_delta(0, 0, "New ", 0, 1, 1).unwrap();
    let (journal, save) = session
        .prepare_flush(1, Some(Ok(parsed("New Original.\n"))))
        .unwrap();
    let save = save.unwrap();
    assert_eq!(journal.stamp, save.stamp);
    assert_eq!(save.body, "New Original.\n");
    assert_eq!(journal.stamp.generation, 2);
    session.apply_text_delta(0, 0, "`", 0, 1, 2).unwrap();
    let (_, save) = session
        .prepare_flush(2, Some(Err("unbalanced".to_string())))
        .unwrap();
    assert!(save.is_none());
}

#[test]
fn recovery_records_are_checked_and_restored() {
    let mut session = open_session(19, 1, immediate());
    session.note_editor_delta(0, 1, 1).unwrap();
    let journal = session.prepare_journal(1, true).unwrap();
    let record = journal.record(42);
    assert_eq!(record.format_version, RECOVERY_FORMAT_VERSION);
    assert_eq!(record.revision, 1);
    assert_eq!(record.created_unix_ms, 42);
    assert_eq!(record.body_fingerprint, ContentFingerprint::of("Original.\n"));
    let mut wrong_version = record.clone();
    wrong_version.format_version = 2;
    assert!(matches!(
        wrong_version.check(),
        Err(DocumentLifecycleError::RecoveryVersion(2))
    ));
    let mut tampered = record.clone();
    tampered.body = "Tampered.\n".to_string();
    assert!(matches!(
        tampered.check(),
        Err(DocumentLifecycleError::RecoveryFingerprint)
    ));

    let candidate = RecoveryCandidate {
        path: PathBuf::from("recovery/19.toml"),
        record: RecoveryRecord {
            body: "Recovered.\n".to_string(),
            body_fingerprint: ContentFingerprint::of("Recovered.\n"),
            ..record
        },
        canonical_fingerprint: Some(ContentFingerprint::of("Original.\n")),
    };
    assert!(candidate.is_newer_than_canonical());
    assert_eq!(candidate.preview(), "Recovered.\n");
    let revision =
        RecoveryStore::restore(&mut session, &candidate, Ok(parsed("Recovered.\n")), 9).unwrap();
    assert_eq!(revision, 2);
    assert_eq!(session.body(), "Recovered.\n");
    assert_eq!(*session.save_state(), SaveState::Dirty);
    let mut stranger = open_session(20, 1, immediate());
    assert!(matches!(
        RecoveryStore::restore(&mut stranger, &candidate, Ok(parsed("Recovered.\n")), 9),
        Err(DocumentLifecycleError::ConflictDocument)
    ));
}

#[test]
fn work_runs_only_while_its_stamp_is_published() {
    let stamp = WorkStamp {
        generation: 1,
        revision: 3,
    };
    assert!(check_work_current(Some(stamp), stamp).is_ok());
    assert!(matches!(
        check_work_current(None, stamp),
        Err(DocumentLifecycleError::StaleWork(_))
    ));
    assert!(matches!(
        check_work_current(
            Some(WorkStamp {
                generation: 1,
                revision: 4
            }),
            stamp
        ),
        Err(DocumentLifecycleError::StaleWork(_))
    ));
    assert!(stamp.is_current(1, 3));
    assert!(!stamp.is_current(1, 4));
}

#[test]
fn injected_faults_stop_work_at_their_boundary() {
    let mut session = open_session(21, 1, immediate());
    session.note_editor_delta(0, 1, 1).unwrap();
    let journal = session.prepare_journal(1, true).unwrap();
    assert!(matches!(
        journal.check_before_write(Some(PersistenceFault::FullDisk)),
        Err(DocumentLifecycleError::InjectedFault(PersistenceFault::FullDisk))
    ));
    assert!(journal
        .check_before_write(Some(PersistenceFault::JournalAfterReplacement))
        .is_ok());
    session.acknowledge_journal(journal.stamp, Ok(()));
    let save = session.prepare_canonical_save(None).unwrap().unwrap();
    assert!(matches!(
        save.check_before_write(
            save.stamp,
            save.expected_disk_fingerprint,
            Some(PersistenceFault::CanonicalBeforeBackup)
        ),
        Err(DocumentLifecycleError::InjectedFault(
            PersistenceFault::CanonicalBeforeBackup
        ))
    ));
    assert!(save
        .check_before_write(
            save.stamp,
            save.expected_disk_fingerprint,
            Some(PersistenceFault::CanonicalAfterWrite)
        )
        .is_ok());
}

#[test]
fn dirty_blocks_merge_touching_and_overlapping_ranges() {
    let mut session = open_session(22, 1, DocumentLifecycleConfig::default());
    session.note_editor_delta(5, 7, 1).unwrap();
    session.note_editor_delta(0, 1, 2).unwrap();
    session.note_editor_delta(9, 8, 3).unwrap();
    assert_eq!(session.dirty_blocks().ranges(), &[0..1, 5..7, 8..9]);
    session.note_editor_delta(7, 8, 4).unwrap();
    assert_eq!(session.dirty_blocks().ranges(), &[0..1, 5..9]);
    session.note_editor_delta(2, 2, 5).unwrap();
    assert_eq!(session.dirty_blocks().ranges(), &[0..1, 2..3, 5..9]);
    assert_eq!(session.revision(), 5);
    let empty = DirtyBlocks::default();
    assert!(empty.ranges().is_empty());
}

#[test]
fn fingerprint_is_length_and_fnv1a() {
    let fingerprint = ContentFingerprint::of("");
    assert_eq!(fingerprint.bytes, 0);
    assert_eq!(fingerprint.hash, 0xcbf2_9ce4_8422_2325_u64 as i64);
    let text = ContentFingerprint::of("é");
    assert_eq!(text.bytes, 2);
    assert_ne!(text, ContentFingerprint::of("e"));
}

#[test]
fn a_canonical_save_backs_up_before_it_writes() {
    assert!(matches!(
        CanonicalSaveRequest::next_step(CanonicalSaveStage::Checked, None),
        CanonicalSaveAction::Backup
    ));
    assert!(matches!(
        CanonicalSaveRequest::next_step(
            CanonicalSaveStage::Checked,
            Some(PersistenceFault::CanonicalBeforeWrite)
        ),
        CanonicalSaveAction::Backup
    ));
    assert!(matches!(
        CanonicalSaveRequest::next_step(
            CanonicalSaveStage::BackedUp,
            Some(PersistenceFault::CanonicalBeforeWrite)
        ),
        CanonicalSaveAction::Stop(DocumentLifecycleError::InjectedFault(
            PersistenceFault::CanonicalBeforeWrite
        ))
    ));
    assert!(matches!(
        CanonicalSaveRequest::next_step(
            CanonicalSaveStage::BackedUp,
            Some(PersistenceFault::CanonicalAfterWrite)
        ),
        CanonicalSaveAction::Write
    ));
    assert!(matches!(
        CanonicalSaveRequest::next_step(
            CanonicalSaveStage::Written,
            Some(PersistenceFault::CanonicalAfterWrite)
        ),
        CanonicalSaveAction::Stop(DocumentLifecycleError::InjectedFault(
            PersistenceFault::CanonicalAfterWrite
        ))
    ));
    assert!(matches!(
        CanonicalSaveRequest::next_step(CanonicalSaveStage::Written, None),
        CanonicalSaveAction::Finish
    ));
}

#[test]
fn a_fault_after_the_journal_replacement_reports_the_write_failed() {
    let mut session = open_session(23, 1, immediate());
    session.note_editor_delta(0, 1, 1).unwrap();
    let journal = session.prepare_journal(1, true).unwrap();
    assert!(matches!(
        journal.check_after_write(Some(PersistenceFault::JournalAfterReplacement)),
        Err(DocumentLifecycleError::InjectedFault(
            PersistenceFault::JournalAfterReplacement
        ))
    ));
    assert!(journal.check_after_write(Some(PersistenceFault::FullDisk)).is_ok());
    assert!(journal.check_after_write(None).is_ok());
}

#[test]
fn an_editor_delta_at_the_last_block_index_saturates() {
    let mut session = open_session(24, 1, DocumentLifecycleConfig::default());
    session.note_editor_delta(usize::MAX, usize::MAX, 1).unwrap();
    assert_eq!(session.revision(), 1);
    assert_eq!(session.dirty_blocks().ranges(), &[usize::MAX..usize::MAX]);
    session.note_editor_delta(3, 3, 2).unwrap();
    assert_eq!(session.dirty_blocks().ranges(), &[3..4, usize::MAX..usize::MAX]);
    session.note_editor_delta(usize::MAX - 1, usize::MAX, 3).unwrap();
    assert_eq!(session.dirty_blocks().ranges(), &[3..4, usize::MAX - 1..usize::MAX]);
}

#[test]
fn touching_dirty_ranges_coalesce_without_an_empty_tail() {
    let mut blocks = DirtyBlocks::default();
    blocks.insert(0..1);
    blocks.insert(2..3);
    assert_eq!(blocks.ranges(), &[0..1, 2..3]);
    blocks.insert(1..2);
    assert_eq!(blocks.ranges(), &[0..3]);
    blocks.insert(usize::MAX..usize::MAX);
    assert_eq!(blocks.ranges(), &[0..3, usize::MAX..usize::MAX]);
    blocks.insert(usize::MAX - 2..usize::MAX);
    assert_eq!(blocks.ranges(), &[0..3, usize::MAX - 2..usize::MAX]);
}
