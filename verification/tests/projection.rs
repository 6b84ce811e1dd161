use parchmint::outline::BinderSnapshot;
use parchmint::projection::{
    binder_row, build_snapshot, is_within_research, preferred_view_for_node, reachable_nodes,
    subtree_nodes, NodeMetadata, OutlineNode, OutlineTree,
};
use parchmint::workspace::{
    OutlineDelta, OutlineSort, PaneView, ProjectEventKind, WorkspaceRevisions,
};
use std::collections::BTreeMap;

const MANUSCRIPT: u128 = 1;
const RESEARCH: u128 = 2;

fn metadata(title: &str, status: Option<&str>) -> NodeMetadata {
    NodeMetadata {
        title: title.to_string(),
        summary: String::new(),
        status: status.map(str::to_string),
        labels: Vec::new(),
        include_in_compile: None,
        has_attachment: false,
    }
}

fn root(key: &str, children: Vec<u128>) -> OutlineNode {
    OutlineNode {
        parent: None,
        children,
        trashed: false,
        is_group: false,
        is_root: true,
        root_key: Some(key.to_string()),
        identity_text: format!("root-{key}"),
        metadata: None,
    }
}

fn document(parent: u128, children: Vec<u128>, meta: NodeMetadata) -> OutlineNode {
    OutlineNode {
        parent: Some(parent),
        is_group: !children.is_empty(),
        children,
        trashed: false,
        is_root: false,
        root_key: None,
        identity_text: format!("node-{parent}"),
        metadata: Some(meta),
    }
}

/// Manuscript(Chapter(Winter Scene, harbor), Summer), Research(Notes)
fn sample() -> OutlineTree {
    let mut nodes = BTreeMap::new();
    nodes.insert(MANUSCRIPT, root("manuscript", vec![10, 20]));
    nodes.insert(RESEARCH, root("research", vec![30]));
    nodes.insert(10, document(MANUSCRIPT, vec![11, 12], metadata("Chapter", Some("Draft"))));
    nodes.insert(11, document(10, vec![], metadata("Winter Scene", Some("final"))));
    nodes.insert(12, document(10, vec![], metadata("harbor", None)));
    nodes.insert(20, document(MANUSCRIPT, vec![], metadata("Summer", Some("draft"))));
    let mut notes = metadata("Notes", None);
    notes.summary = "Background for the winter chapter".to_string();
    notes.labels = vec!["Idea".to_string(), "Later".to_string()];
    notes.include_in_compile = Some(true);
    nodes.insert(30, document(RESEARCH, vec![], notes));
    OutlineTree {
        roots: vec![MANUSCRIPT, RESEARCH],
        nodes,
    }
}

fn shown(snapshot: &BinderSnapshot) -> Vec<(u128, u16)> {
    snapshot.rows().iter().map(|row| (row.id, row.depth)).collect()
}

#[test]
fn binder_order_is_depth_first_in_sibling_order() {
    let snapshot = build_snapshot(&sample(), None, "", OutlineSort::Binder);
    assert_eq!(
        shown(&snapshot),
        vec![(1, 0), (10, 1), (11, 2), (12, 2), (20, 1), (2, 0), (30, 1)]
    );
    assert_eq!(snapshot.row_for_node(30), Some(6));
    let manuscript = &snapshot.rows()[0];
    assert_eq!(manuscript.title, "manuscript");
    assert!(manuscript.is_root);
    assert!(manuscript.has_children);
    let notes = &snapshot.rows()[6];
    assert_eq!(notes.title, "Notes");
    assert_eq!(notes.synopsis, "Background for the winter chapter");
    assert_eq!(notes.label, "Idea");
    assert_eq!(notes.status, "");
    assert!(notes.include_in_compile);
    assert_eq!(notes.parent, Some(RESEARCH));
    assert_eq!(notes.word_count, 0);
}

#[test]
fn focus_shows_only_the_focused_subtree() {
    let tree = sample();
    let snapshot = build_snapshot(&tree, Some(10), "", OutlineSort::Binder);
    assert_eq!(shown(&snapshot), vec![(10, 0), (11, 1), (12, 1)]);
    let missing = build_snapshot(&tree, Some(99), "", OutlineSort::Binder);
    assert_eq!(missing.len(), 7);
    let mut trashed = sample();
    trashed.nodes.get_mut(&10).unwrap().trashed = true;
    assert_eq!(build_snapshot(&trashed, Some(10), "", OutlineSort::Binder).len(), 7);
}

#[test]
fn filter_keeps_matches_and_their_ancestors() {
    let tree = sample();
    let snapshot = build_snapshot(&tree, None, "  WINTER ", OutlineSort::Binder);
    assert_eq!(shown(&snapshot), vec![(1, 0), (10, 1), (11, 2), (2, 0), (30, 1)]);
    let by_label = build_snapshot(&tree, None, "idea", OutlineSort::Binder);
    assert_eq!(shown(&by_label), vec![(2, 0), (30, 1)]);
    let by_status = build_snapshot(&tree, None, "FINAL", OutlineSort::Binder);
    assert_eq!(shown(&by_status), vec![(1, 0), (10, 1), (11, 2)]);
    let nothing = build_snapshot(&tree, None, "zebra", OutlineSort::Binder);
    assert!(nothing.is_empty());
}

#[test]
fn nodes_without_documents_match_their_identity_text() {
    let tree = sample();
    let snapshot = build_snapshot(&tree, None, "root-research", OutlineSort::Binder);
    assert_eq!(shown(&snapshot), vec![(2, 0)]);
}

#[test]
fn title_order_ignores_case_and_keeps_ties_in_binder_order() {
    let mut tree = sample();
    tree.nodes.get_mut(&MANUSCRIPT).unwrap().children = vec![20, 10, 40, 41];
    tree.nodes.insert(40, document(MANUSCRIPT, vec![], metadata("apple", None)));
    tree.nodes.insert(41, document(MANUSCRIPT, vec![], metadata("Apple", Some("a"))));
    let snapshot = build_snapshot(&tree, Some(MANUSCRIPT), "", OutlineSort::Title);
    assert_eq!(
        shown(&snapshot),
        vec![(1, 0), (40, 1), (41, 1), (10, 1), (12, 2), (11, 2), (20, 1)]
    );
}

#[test]
fn status_order_groups_by_status_then_title() {
    let tree = sample();
    let snapshot = build_snapshot(&tree, Some(10), "", OutlineSort::Status);
    assert_eq!(shown(&snapshot), vec![(10, 0), (12, 1), (11, 1)]);
    let whole = build_snapshot(&tree, Some(MANUSCRIPT), "", OutlineSort::Status);
    assert_eq!(
        shown(&whole),
        vec![(1, 0), (10, 1), (12, 2), (11, 2), (20, 1)]
    );
}

#[test]
fn binder_rows_describe_nodes_and_absent_nodes_have_none() {
    let tree = sample();
    let row = binder_row(&tree, 11, 4, 250).unwrap();
    assert_eq!(row.title, "Winter Scene");
    assert_eq!(row.status, "final");
    assert_eq!(row.depth, 4);
    assert_eq!(row.word_count, 250);
    assert!(!row.include_in_compile);
    assert!(binder_row(&tree, 99, 0, 0).is_none());
    let mut nameless = sample();
    nameless.nodes.get_mut(&RESEARCH).unwrap().root_key = None;
    assert_eq!(binder_row(&nameless, RESEARCH, 0, 0).unwrap().title, "root");
}

#[test]
fn ten_thousand_node_projection_is_bounded_and_lazy_at_the_consumer_edge() {
    let mut nodes = BTreeMap::new();
    let mut children = Vec::new();
    for index in 0..10_000u128 {
        let id = 100 + index;
        children.push(id);
        nodes.insert(id, document(MANUSCRIPT, vec![], metadata(&format!("Scene {index}"), None)));
    }
    nodes.insert(MANUSCRIPT, root("manuscript", children));
    nodes.insert(RESEARCH, root("research", vec![]));
    let tree = OutlineTree {
        roots: vec![MANUSCRIPT, RESEARCH],
        nodes,
    };
    let start = std::time::Instant::now();
    let snapshot = build_snapshot(&tree, None, "", OutlineSort::Binder);
    assert_eq!(snapshot.len(), 10_002);
    assert_eq!(snapshot.visible_rows(9_990, 40).len(), 12);
    assert!(
        start.elapsed() < std::time::Duration::from_secs(1),
        "projection took {:?}",
        start.elapsed()
    );
}

#[test]
fn deeply_nested_projection_uses_no_user_depth_stack() {
    let mut nodes = BTreeMap::new();
    let mut parent = MANUSCRIPT;
    let mut manuscript_children = Vec::new();
    for index in 0..20_000u128 {
        let id = 100 + index;
        if parent == MANUSCRIPT {
            manuscript_children.push(id);
        } else {
            nodes.get_mut(&parent).map(|node: &mut OutlineNode| node.children.push(id));
        }
        let mut group = document(parent, vec![], metadata(&format!("Depth {index}"), None));
        group.is_group = true;
        nodes.insert(id, group);
        parent = id;
    }
    nodes.insert(MANUSCRIPT, root("manuscript", manuscript_children));
    nodes.insert(RESEARCH, root("research", vec![]));
    let tree = OutlineTree {
        roots: vec![MANUSCRIPT, RESEARCH],
        nodes,
    };
    let snapshot = build_snapshot(&tree, None, "", OutlineSort::Binder);
    assert_eq!(snapshot.len(), 20_002);
    assert_eq!(
        snapshot.rows().iter().map(|row| row.depth).max(),
        Some(20_000)
    );
}

#[test]
fn structural_commands_publish_typed_deltas_and_independent_revisions() {
    let mut tree = OutlineTree {
        roots: vec![MANUSCRIPT],
        nodes: BTreeMap::from([(MANUSCRIPT, root("manuscript", vec![]))]),
    };
    let mut snapshot = build_snapshot(&tree, None, "", OutlineSort::Binder);
    let mut revisions = WorkspaceRevisions::default();
    let initial = revisions;

    let first = 10;
    tree.nodes.insert(first, document(MANUSCRIPT, vec![], metadata("First", None)));
    tree.nodes.get_mut(&MANUSCRIPT).unwrap().children.push(first);
    let create = snapshot
        .insert_subtree(MANUSCRIPT, None, vec![binder_row(&tree, first, 0, 0).unwrap()])
        .unwrap();
    assert!(matches!(create, OutlineDelta::Insert { count: 1, .. }));
    assert!(snapshot
        .refresh_row(MANUSCRIPT, binder_row(&tree, MANUSCRIPT, 0, 0).unwrap())
        .is_some());
    revisions.record_events(&vec![ProjectEventKind::NodeCreated]);
    assert!(revisions.structure > initial.structure);

    let after_create = revisions;
    tree.nodes.get_mut(&first).unwrap().metadata = Some(metadata("Renamed", None));
    let rename = snapshot
        .refresh_row(first, binder_row(&tree, first, 0, 0).unwrap())
        .unwrap();
    assert!(matches!(rename, OutlineDelta::Data { count: 1, .. }));
    revisions.record_events(&vec![ProjectEventKind::NodeRenamed]);
    assert_eq!(revisions.structure, after_create.structure);
    assert!(revisions.content > after_create.content);

    let second = 11;
    tree.nodes.insert(second, document(MANUSCRIPT, vec![], metadata("Second", None)));
    tree.nodes.get_mut(&MANUSCRIPT).unwrap().children.push(second);
    snapshot
        .insert_subtree(MANUSCRIPT, Some(first), vec![binder_row(&tree, second, 0, 0).unwrap()])
        .unwrap();
    tree.nodes.get_mut(&MANUSCRIPT).unwrap().children = vec![second, first];
    let (moved, old_parent) = snapshot.move_subtree(second, MANUSCRIPT, None).unwrap();
    assert!(matches!(moved, OutlineDelta::Move { count: 1, .. }));
    assert_eq!(old_parent, Some(MANUSCRIPT));
    snapshot.refresh_row(MANUSCRIPT, binder_row(&tree, MANUSCRIPT, 0, 0).unwrap());

    let reference = build_snapshot(&tree, None, "", OutlineSort::Binder);
    assert_eq!(snapshot, reference);
}

#[test]
fn research_membership_follows_parents_and_survives_cycles() {
    let mut tree = sample();
    assert!(is_within_research(&tree, 30, RESEARCH));
    assert!(is_within_research(&tree, RESEARCH, RESEARCH));
    assert!(!is_within_research(&tree, 11, RESEARCH));
    assert!(!is_within_research(&tree, 99, RESEARCH));
    tree.nodes.get_mut(&11).unwrap().parent = Some(12);
    tree.nodes.get_mut(&12).unwrap().parent = Some(11);
    assert!(!is_within_research(&tree, 11, RESEARCH));
    assert!(is_within_research(&tree, 11, 12));
}

#[test]
fn panes_open_roots_in_the_outline_and_attachments_in_their_view() {
    let mut tree = sample();
    tree.nodes
        .get_mut(&30)
        .unwrap()
        .metadata
        .as_mut()
        .unwrap()
        .has_attachment = true;
    assert_eq!(preferred_view_for_node(&tree, MANUSCRIPT), PaneView::Outline);
    assert_eq!(preferred_view_for_node(&tree, 30), PaneView::Attachment);
    assert_eq!(preferred_view_for_node(&tree, 11), PaneView::Editor);
    assert_eq!(preferred_view_for_node(&tree, 99), PaneView::Editor);
}

#[test]
fn subtrees_collect_each_descendant_once() {
    let mut tree = sample();
    let mut below = subtree_nodes(&tree, 10);
    below.sort();
    assert_eq!(below, vec![10, 11, 12]);
    assert_eq!(subtree_nodes(&tree, 99), vec![99]);
    tree.nodes.get_mut(&12).unwrap().children = vec![10];
    let mut cyclic = subtree_nodes(&tree, 10);
    cyclic.sort();
    assert_eq!(cyclic, vec![10, 11, 12]);
    let mut all = reachable_nodes(&sample(), &vec![MANUSCRIPT, RESEARCH]);
    all.sort();
    assert_eq!(all, vec![1, 2, 10, 11, 12, 20, 30]);
}
