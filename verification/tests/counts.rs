use parchmint::counts::{CountError, CountLedger};
use parchmint::document::TextCountDelta;
use parchmint::projection::{OutlineNode, OutlineTree};
use parchmint::text::TextStatistics;
use std::collections::BTreeMap;

fn node(parent: Option<u128>, children: Vec<u128>) -> OutlineNode {
    OutlineNode {
        parent,
        children,
        trashed: false,
        is_group: false,
        is_root: parent.is_none(),
        root_key: None,
        identity_text: String::new(),
        metadata: None,
    }
}

/// 1(10(11, 12), 20)
fn sample() -> OutlineTree {
    OutlineTree {
        roots: vec![1],
        nodes: BTreeMap::from([
            (1, node(None, vec![10, 20])),
            (10, node(Some(1), vec![11, 12])),
            (11, node(Some(10), vec![])),
            (12, node(Some(10), vec![])),
            (20, node(Some(1), vec![])),
        ]),
    }
}

fn counts(words: u64, characters: u64) -> TextStatistics {
    TextStatistics { words, characters }
}

#[test]
fn document_counts_roll_up_to_every_ancestor() {
    let tree = sample();
    let mut ledger = CountLedger::default();
    assert_eq!(ledger.set_document_counts(&tree, 100, Some(11), counts(5, 20)), Ok(()));
    assert_eq!(ledger.document_counts(100), counts(5, 20));
    for id in [11, 10, 1] {
        assert_eq!(ledger.subtree_counts(id), counts(5, 20));
    }
    assert_eq!(ledger.subtree_counts(20), counts(0, 0));

    assert_eq!(ledger.set_document_counts(&tree, 100, Some(11), counts(3, 10)), Ok(()));
    assert_eq!(ledger.subtree_counts(1), counts(3, 10));

    let delta = TextCountDelta { words: 4, characters: 8 };
    assert_eq!(ledger.apply_document_count_delta(&tree, 101, Some(12), delta), Ok(()));
    assert_eq!(ledger.document_counts(101), counts(4, 8));
    assert_eq!(ledger.subtree_counts(12), counts(4, 8));
    assert_eq!(ledger.subtree_counts(10), counts(7, 18));
    assert_eq!(ledger.subtree_counts(1), counts(7, 18));
    assert_eq!(ledger.subtree_counts(11), counts(3, 10));
}

#[test]
fn counts_saturate_at_zero() {
    let tree = sample();
    let mut ledger = CountLedger::default();
    let delta = TextCountDelta { words: -3, characters: -1 };
    assert_eq!(ledger.apply_document_count_delta(&tree, 100, Some(20), delta), Ok(()));
    assert_eq!(ledger.document_counts(100), counts(0, 0));
    assert_eq!(ledger.subtree_counts(1), counts(0, 0));
}

#[test]
fn missing_documents_and_cycles_are_reported() {
    let mut tree = sample();
    let mut ledger = CountLedger::default();
    assert_eq!(
        ledger.set_document_counts(&tree, 100, None, counts(2, 2)),
        Err(CountError::DocumentAbsent)
    );
    assert_eq!(ledger.document_counts(100), counts(2, 2));
    assert_eq!(ledger.subtree_counts(1), counts(0, 0));
    assert_eq!(CountError::DocumentAbsent.message(), "count document is absent");

    tree.nodes.get_mut(&11).unwrap().parent = Some(12);
    tree.nodes.get_mut(&12).unwrap().parent = Some(11);
    assert_eq!(
        ledger.set_document_counts(&tree, 101, Some(11), counts(1, 1)),
        Err(CountError::Cycle)
    );
    assert_eq!(ledger.subtree_counts(11), counts(1, 1));
    assert_eq!(ledger.subtree_counts(12), counts(1, 1));
    assert_eq!(ledger.subtree_counts(10), counts(0, 0));
    assert_eq!(CountError::Cycle.message(), "count ancestry contains a cycle");
}
