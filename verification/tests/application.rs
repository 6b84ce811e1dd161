use parchmint::application::{
    parse_stable_id, restored_document_states, stable_id_text, DocumentVisibility, CheckpointGroupId, PersistenceSaveHandle,
    ProjectPersistenceError,
};

#[test]
fn stable_ids_round_trip_through_their_hex_spelling() {
    let bytes: [u8; 16] = [
        0x00, 0x01, 0x7f, 0x80, 0xab, 0xcd, 0xef, 0xff, 0x10, 0x20, 0x30, 0x40, 0x50, 0x60,
        0x70, 0x90,
    ];
    let text = stable_id_text(&bytes);
    assert_eq!(text, "00017f80abcdefff1020304050607090");
    assert_eq!(parse_stable_id(&text).unwrap(), bytes);
    assert_eq!(
        parse_stable_id("00017F80ABCDEFFF1020304050607090").unwrap(),
        bytes
    );
}

#[test]
fn every_identifier_spells_as_lowercase_hex_and_parses_back() {
    assert_eq!(stable_id_text(&[0xab; 16]), "ab".repeat(16));
    for fill in [0x00u8, 0x0f, 0x5a, 0xff] {
        let mut bytes = [fill; 16];
        bytes[3] = 0xc4;
        let text = stable_id_text(&bytes);
        assert_eq!(text.len(), 32);
        assert!(text.bytes().all(|b| b.is_ascii_digit() || (b'a'..=b'f').contains(&b)));
        assert_eq!(parse_stable_id(&text).unwrap(), bytes);
    }
}

#[test]
fn malformed_stable_ids_are_unknown_acceptances() {
    for value in ["", "0001", "zz017f80abcdefff1020304050607090", "00017f80abcdefff10203040506070900"] {
        assert!(matches!(
            parse_stable_id(value),
            Err(ProjectPersistenceError::UnknownRecoveryAcceptance)
        ));
    }
}

#[test]
fn handles_expose_their_numbers() {
    assert_eq!(CheckpointGroupId(7).value(), 7);
    assert_eq!(PersistenceSaveHandle(9).value(), 9);
}

#[test]
fn restored_documents_move_past_both_revisions_and_keep_live_visibility() {
    let restored = vec![(1, 7), (2, 3), (5, 0), (6, u64::MAX)];
    let current = vec![
        (2, 9, DocumentVisibility::Hidden),
        (1, 4, DocumentVisibility::Closed),
        (2, 10, DocumentVisibility::Open),
    ];
    assert_eq!(
        restored_document_states(&restored, &current),
        vec![
            (1, 8, DocumentVisibility::Closed),
            (2, 11, DocumentVisibility::Open),
            (5, 1, DocumentVisibility::Closed),
            (6, u64::MAX, DocumentVisibility::Closed),
        ]
    );
}

#[test]
fn the_first_restored_document_opens_when_none_is_open() {
    let restored = vec![(3, 2), (4, 1)];
    let current = vec![(4, 5, DocumentVisibility::Hidden)];
    assert_eq!(
        restored_document_states(&restored, &current),
        vec![(3, 3, DocumentVisibility::Open), (4, 6, DocumentVisibility::Hidden)]
    );
    assert_eq!(restored_document_states(&Vec::new(), &current), Vec::new());
}
