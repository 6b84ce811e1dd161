use parchmint::placement::{
    child_count, parent_for, plan_drop, plan_indent, plan_move_down, plan_move_up, plan_outdent,
    sibling_index, DropPlacement, OutlineCommand, PlacementError,
};
use parchmint::projection::{NodeMetadata, OutlineNode, OutlineTree};
use std::collections::BTreeMap;

fn node(parent: Option<u128>, children: Vec<u128>) -> OutlineNode {
    OutlineNode {
        parent,
        children,
        trashed: false,
        is_group: false,
        is_root: parent.is_none(),
        root_key: None,
        identity_text: String::new(),
        metadata: Some(NodeMetadata {
            title: String::new(),
            summary: String::new(),
            status: None,
            labels: Vec::new(),
            include_in_compile: None,
            has_attachment: false,
        }),
    }
}

/// 1(10(11, 12), 20), 2(30)
fn sample() -> OutlineTree {
    let nodes = BTreeMap::from([
        (1, node(None, vec![10, 20])),
        (2, node(None, vec![30])),
        (10, node(Some(1), vec![11, 12])),
        (11, node(Some(10), vec![])),
        (12, node(Some(10), vec![])),
        (20, node(Some(1), vec![])),
        (30, node(Some(2), vec![])),
    ]);
    OutlineTree {
        roots: vec![1, 2],
        nodes,
    }
}

#[test]
fn lookups_report_missing_nodes_roots_and_strays() {
    let tree = sample();
    assert_eq!(parent_for(&tree, 11), Ok(10));
    assert_eq!(parent_for(&tree, 1), Err(PlacementError::RootMutation(1)));
    assert_eq!(parent_for(&tree, 99), Err(PlacementError::MissingNode(99)));
    assert_eq!(child_count(&tree, 10), Ok(2));
    assert_eq!(child_count(&tree, 99), Err(PlacementError::MissingNode(99)));
    assert_eq!(sibling_index(&tree, 10, 12), Ok(1));
    assert_eq!(sibling_index(&tree, 10, 20), Err(PlacementError::AbsentFromParent));
}

#[test]
fn drops_reorder_within_a_parent_and_reparent_across() {
    let tree = sample();
    assert_eq!(
        plan_drop(&tree, 12, DropPlacement::Before(11)),
        Ok(OutlineCommand::Reorder { node: 12, index: 0 })
    );
    assert_eq!(
        plan_drop(&tree, 11, DropPlacement::After(12)),
        Ok(OutlineCommand::Reorder { node: 11, index: 1 })
    );
    assert_eq!(
        plan_drop(&tree, 20, DropPlacement::Before(10)),
        Ok(OutlineCommand::Reorder { node: 20, index: 0 })
    );
    assert_eq!(
        plan_drop(&tree, 20, DropPlacement::Inside(10)),
        Ok(OutlineCommand::Reparent {
            node: 20,
            parent: 10,
            index: 2
        })
    );
    assert_eq!(
        plan_drop(&tree, 30, DropPlacement::After(11)),
        Ok(OutlineCommand::Reparent {
            node: 30,
            parent: 10,
            index: 1
        })
    );
}

#[test]
fn drops_report_what_is_missing() {
    let tree = sample();
    assert_eq!(
        plan_drop(&tree, 99, DropPlacement::Inside(10)),
        Err(PlacementError::MissingNode(99))
    );
    assert_eq!(
        plan_drop(&tree, 1, DropPlacement::Before(20)),
        Err(PlacementError::RootMutation(1))
    );
    assert_eq!(
        plan_drop(&tree, 11, DropPlacement::Before(2)),
        Err(PlacementError::RootMutation(2))
    );
    assert_eq!(
        plan_drop(&tree, 11, DropPlacement::Inside(98)),
        Err(PlacementError::MissingNode(98))
    );
}

#[test]
fn moves_up_and_down_stop_at_the_ends() {
    let tree = sample();
    assert_eq!(
        plan_move_up(&tree, 12),
        Ok(Some(OutlineCommand::Reorder { node: 12, index: 0 }))
    );
    assert_eq!(plan_move_up(&tree, 11), Ok(None));
    assert_eq!(
        plan_move_down(&tree, 11),
        Ok(Some(OutlineCommand::Reorder { node: 11, index: 1 }))
    );
    assert_eq!(plan_move_down(&tree, 12), Ok(None));
    assert_eq!(plan_move_up(&tree, 2), Err(PlacementError::RootMutation(2)));
}

#[test]
fn indent_and_outdent_change_the_parent() {
    let tree = sample();
    assert_eq!(
        plan_indent(&tree, 12),
        Ok(Some(OutlineCommand::Reparent {
            node: 12,
            parent: 11,
            index: 0
        }))
    );
    assert_eq!(
        plan_indent(&tree, 20),
        Ok(Some(OutlineCommand::Reparent {
            node: 20,
            parent: 10,
            index: 2
        }))
    );
    assert_eq!(plan_indent(&tree, 11), Ok(None));
    assert_eq!(
        plan_outdent(&tree, 11),
        Ok(Some(OutlineCommand::Reparent {
            node: 11,
            parent: 1,
            index: 1
        }))
    );
    assert_eq!(plan_outdent(&tree, 10), Err(PlacementError::RootMutation(1)));
}

#[test]
fn creation_duplication_and_restoration_places() {
    let tree = sample();
    assert_eq!(parchmint::placement::plan_creation(&tree, 10, 2), Ok((2, true)));
    assert_eq!(parchmint::placement::plan_creation(&tree, 30, 2), Ok((0, false)));
    assert_eq!(
        parchmint::placement::plan_creation(&tree, 99, 2),
        Err(PlacementError::MissingNode(99))
    );
    assert_eq!(parchmint::placement::plan_duplicate(&tree, 11), Ok((10, 1)));
    assert_eq!(
        parchmint::placement::plan_duplicate(&tree, 1),
        Err(PlacementError::RootMutation(1))
    );
    assert_eq!(parchmint::placement::restore_index(&tree, 10, 7), 2);
    assert_eq!(parchmint::placement::restore_index(&tree, 10, 1), 1);
    assert_eq!(parchmint::placement::restore_index(&tree, 99, 7), 7);
}
