use parchmint::application::PersistenceSaveKind;
use parchmint::hashing::{
    checkpoint_intent_hash, fresh_document_id, fresh_node_id, recovery_document_content_hash,
};
use sha2::{Digest, Sha256};

fn digest_of(parts: &[&[u8]]) -> [u8; 32] {
    let mut hasher = Sha256::new();
    for part in parts {
        hasher.update(part);
    }
    hasher.finalize().into()
}

fn candidate(label: &[u8], project: &[u8; 16], source: &[u8; 16], revision: u64, ordinal: u64, attempt: u64) -> [u8; 16] {
    let hash = digest_of(&[
        label,
        project,
        source,
        &revision.to_be_bytes(),
        &ordinal.to_be_bytes(),
        &attempt.to_be_bytes(),
    ]);
    let mut id = [0; 16];
    id.copy_from_slice(&hash[..16]);
    id
}

#[test]
fn recovery_content_hash_covers_body_and_annotations_with_lengths() {
    let body = b"# Title\n\nBody";
    let annotations = b"{\"notes\":[]}";
    let with = recovery_document_content_hash(body, Some(annotations));
    let expected = digest_of(&[
        b"parchmint recovery document v1\0",
        &(body.len() as u64).to_be_bytes(),
        body,
        &[1],
        &(annotations.len() as u64).to_be_bytes(),
        annotations,
    ]);
    assert_eq!(with, expected);

    let without = recovery_document_content_hash(body, None);
    let expected_without = digest_of(&[
        b"parchmint recovery document v1\0",
        &(body.len() as u64).to_be_bytes(),
        body,
        &[0],
    ]);
    assert_eq!(without, expected_without);
    assert_ne!(with, without);
    assert_ne!(without, digest_of(&[body]));
}

#[test]
fn empty_annotations_differ_from_absent_annotations() {
    let body = b"text";
    assert_ne!(
        recovery_document_content_hash(body, Some(b"")),
        recovery_document_content_hash(body, None)
    );
}

#[test]
fn checkpoint_intent_hash_covers_kind_resources_and_deletions() {
    let project = [7u8; 16];
    let resources = vec![
        ("documents/a.md".to_string(), [1u8; 32]),
        ("project.toml".to_string(), [2u8; 32]),
    ];
    let deletions = vec!["documents/old.md".to_string()];
    let hash = checkpoint_intent_hash(
        &project,
        9,
        PersistenceSaveKind::Explicit,
        &resources,
        &deletions,
    );
    let expected = digest_of(&[
        &project,
        &9u64.to_be_bytes(),
        &[2],
        b"documents/a.md",
        &[1u8; 32],
        b"project.toml",
        &[2u8; 32],
        b"delete\0",
        b"documents/old.md",
    ]);
    assert_eq!(hash, expected);

    let autosave = checkpoint_intent_hash(
        &project,
        9,
        PersistenceSaveKind::Autosave,
        &resources,
        &deletions,
    );
    assert_ne!(hash, autosave);
    let structural = checkpoint_intent_hash(
        &project,
        9,
        PersistenceSaveKind::StructuralEdit,
        &resources,
        &deletions,
    );
    assert_eq!(
        structural,
        digest_of(&[
            &project,
            &9u64.to_be_bytes(),
            &[1],
            b"documents/a.md",
            &[1u8; 32],
            b"project.toml",
            &[2u8; 32],
            b"delete\0",
            b"documents/old.md",
        ])
    );
}

#[test]
fn fresh_node_id_takes_the_first_free_candidate() {
    let project = [3u8; 16];
    let source = [4u8; 16];
    let label = b"parchmint duplicate node\0";
    let first = candidate(label, &project, &source, 12, 0, 1);
    let second = candidate(label, &project, &source, 12, 0, 2);
    assert_eq!(fresh_node_id(&project, &source, 12, 0, &Vec::new()), Some(first));
    assert_eq!(fresh_node_id(&project, &source, 12, 0, &vec![first]), Some(second));
    assert_ne!(first, source);
    let other_ordinal = fresh_node_id(&project, &source, 12, 1, &Vec::new()).unwrap();
    assert_eq!(other_ordinal, candidate(label, &project, &source, 12, 1, 1));
    assert_ne!(other_ordinal, first);
}

#[test]
fn fresh_document_id_uses_its_own_label() {
    let project = [5u8; 16];
    let source = [6u8; 16];
    let document = fresh_document_id(&project, &source, 1, 0, &Vec::new()).unwrap();
    let node = fresh_node_id(&project, &source, 1, 0, &Vec::new()).unwrap();
    assert_eq!(
        document,
        candidate(b"parchmint duplicate document\0", &project, &source, 1, 0, 1)
    );
    assert_ne!(document, node);
    let taken = vec![document, candidate(b"parchmint duplicate document\0", &project, &source, 1, 0, 2)];
    assert_eq!(
        fresh_document_id(&project, &source, 1, 0, &taken),
        Some(candidate(b"parchmint duplicate document\0", &project, &source, 1, 0, 3))
    );
}
