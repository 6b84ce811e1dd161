use parchmint::counts::CountLedger;
use parchmint::indexing::{apply_index_progress, IndexCountRow, IndexPoll, SearchRebuildProgress};
use parchmint::outline::BinderSnapshot;
use parchmint::projection::{build_snapshot, NodeMetadata, OutlineNode, OutlineTree};
use parchmint::text::{IndexStatus, TextStatistics};
use parchmint::workspace::{OutlineDelta, OutlineSort};
use std::collections::BTreeMap;

fn metadata(title: &str) -> NodeMetadata {
    NodeMetadata {
        title: title.to_string(),
        summary: String::new(),
        status: None,
        labels: Vec::new(),
        include_in_compile: None,
        has_attachment: false,
    }
}

fn node(parent: Option<u128>, children: Vec<u128>, title: Option<&str>) -> OutlineNode {
    OutlineNode {
        parent,
        is_group: !children.is_empty() && parent.is_some(),
        children,
        trashed: false,
        is_root: parent.is_none(),
        root_key: if parent.is_none() { Some("manuscript".to_string()) } else { None },
        identity_text: String::new(),
        metadata: title.map(metadata),
    }
}

/// Manuscript(Chapter(Scene, Harbor), Summer)
fn tree() -> OutlineTree {
    let mut nodes = BTreeMap::new();
    nodes.insert(1, node(None, vec![10, 20], None));
    nodes.insert(10, node(Some(1), vec![11, 12], Some("Chapter")));
    nodes.insert(11, node(Some(10), vec![], Some("Scene")));
    nodes.insert(12, node(Some(10), vec![], Some("Harbor")));
    nodes.insert(20, node(Some(1), vec![], Some("Summer")));
    OutlineTree { roots: vec![1], nodes }
}

fn count_row(node: u128, document: Option<u128>, words: u64) -> IndexCountRow {
    IndexCountRow {
        node,
        document,
        document_words: words,
        document_characters: words * 5,
        subtree_words: words * 2,
        subtree_characters: words * 10,
    }
}

struct Fixture {
    status: IndexStatus,
    ledger: CountLedger,
    snapshot: BinderSnapshot,
    tree: OutlineTree,
}

fn fixture() -> Fixture {
    let tree = tree();
    let snapshot = build_snapshot(&tree, None, "", OutlineSort::Binder);
    Fixture { status: IndexStatus::RebuildNeeded, ledger: CountLedger::default(), snapshot, tree }
}

fn apply(f: &mut Fixture, revision: u64, progress: SearchRebuildProgress) -> IndexPoll {
    apply_index_progress(&mut f.status, &mut f.ledger, &mut f.snapshot, &f.tree, revision, progress)
}

#[test]
fn progress_for_another_rebuild_changes_nothing() {
    let mut f = fixture();
    let rows_before = f.snapshot.rows().to_vec();
    let next = apply(
        &mut f,
        7,
        SearchRebuildProgress::Counts { revision: 6, rows: vec![count_row(11, Some(111), 3)] },
    );
    assert_eq!(next, IndexPoll::Continue(Vec::new()));
    assert_eq!(f.status, IndexStatus::RebuildNeeded);
    assert_eq!(f.snapshot.rows(), &rows_before[..]);
    assert_eq!(f.ledger.subtree_counts(11), TextStatistics::default());
    let next = apply(&mut f, 7, SearchRebuildProgress::Failed { revision: 6, message: "x".to_string() });
    assert_eq!(next, IndexPoll::Continue(Vec::new()));
    assert_eq!(f.status, IndexStatus::RebuildNeeded);
}

#[test]
fn a_batch_becomes_the_indexing_status() {
    let mut f = fixture();
    let next = apply(&mut f, 3, SearchRebuildProgress::Batch { revision: 3, completed: 4, total: 9 });
    assert_eq!(next, IndexPoll::Continue(Vec::new()));
    assert_eq!(f.status, IndexStatus::Indexing { revision: 3, completed: 4, total: 9 });
}

#[test]
fn counts_are_stored_and_refresh_the_rows_they_name() {
    let mut f = fixture();
    let next = apply(
        &mut f,
        2,
        SearchRebuildProgress::Counts {
            revision: 2,
            rows: vec![
                count_row(20, Some(200), 4),
                count_row(10, None, 9),
                count_row(11, Some(110), 3),
                count_row(99, Some(990), 1),
            ],
        },
    );
    assert_eq!(
        next,
        IndexPoll::Continue(vec![
            OutlineDelta::Data { first: 1, count: 2 },
            OutlineDelta::Data { first: 4, count: 1 },
        ])
    );
    assert_eq!(f.ledger.document_counts(200), TextStatistics { words: 4, characters: 20 });
    assert_eq!(f.ledger.document_counts(110), TextStatistics { words: 3, characters: 15 });
    assert_eq!(f.ledger.document_counts(990), TextStatistics { words: 1, characters: 5 });
    assert_eq!(f.ledger.subtree_counts(10), TextStatistics { words: 18, characters: 90 });
    assert_eq!(f.ledger.subtree_counts(99), TextStatistics { words: 2, characters: 10 });
    let rows = f.snapshot.rows();
    let shown: Vec<(u128, u16, usize)> = rows.iter().map(|r| (r.id, r.depth, r.word_count)).collect();
    assert_eq!(shown, vec![(1, 0, 0), (10, 1, 18), (11, 2, 6), (12, 2, 0), (20, 1, 8)]);
    assert_eq!(rows[1].title, "Chapter");
    assert_eq!(f.status, IndexStatus::RebuildNeeded);
}

#[test]
fn completion_makes_the_index_ready() {
    let mut f = fixture();
    let next = apply(&mut f, 5, SearchRebuildProgress::Complete { revision: 5, total: 12 });
    assert_eq!(next, IndexPoll::Completed);
    assert_eq!(f.status, IndexStatus::Ready);
}

#[test]
fn cancellation_stops_the_worker_and_keeps_the_status() {
    let mut f = fixture();
    apply(&mut f, 5, SearchRebuildProgress::Batch { revision: 5, completed: 1, total: 2 });
    let next = apply(&mut f, 5, SearchRebuildProgress::Cancelled { revision: 5 });
    assert_eq!(next, IndexPoll::Stopped);
    assert_eq!(f.status, IndexStatus::Indexing { revision: 5, completed: 1, total: 2 });
}

#[test]
fn failure_makes_the_index_unavailable_with_its_message() {
    let mut f = fixture();
    let next = apply(
        &mut f,
        5,
        SearchRebuildProgress::Failed { revision: 5, message: "disk full".to_string() },
    );
    assert_eq!(next, IndexPoll::Stopped);
    assert_eq!(f.status, IndexStatus::Unavailable("disk full".to_string()));
}
