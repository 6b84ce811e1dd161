use parchmint::outline::{BinderRow, BinderSnapshot, OutlineError};
use parchmint::workspace::OutlineDelta;

fn row(id: u128, parent: Option<u128>, depth: u16, title: &str) -> BinderRow {
    BinderRow {
        id,
        parent,
        depth,
        is_group: false,
        is_root: parent.is_none(),
        has_children: false,
        title: title.to_string(),
        synopsis: String::new(),
        status: String::new(),
        label: String::new(),
        word_count: 0,
        include_in_compile: true,
    }
}

const A: u128 = 1;
const B: u128 = 2;
const C: u128 = 3;
const D: u128 = 4;
const E: u128 = 5;

/// A(B(C), D), E
fn sample() -> BinderSnapshot {
    BinderSnapshot::from_rows(vec![
        row(A, None, 0, "A"),
        row(B, Some(A), 1, "B"),
        row(C, Some(B), 2, "C"),
        row(D, Some(A), 1, "D"),
        row(E, None, 0, "E"),
    ])
}

fn shape(snapshot: &BinderSnapshot) -> Vec<(u128, Option<u128>, u16)> {
    snapshot
        .rows()
        .iter()
        .map(|row| (row.id, row.parent, row.depth))
        .collect()
}

#[test]
fn subtree_ranges_follow_depth() {
    let snapshot = sample();
    assert_eq!(snapshot.len(), 5);
    assert!(!snapshot.is_empty());
    assert_eq!(snapshot.subtree_range(A), Some(0..4));
    assert_eq!(snapshot.subtree_range(B), Some(1..3));
    assert_eq!(snapshot.subtree_range(C), Some(2..3));
    assert_eq!(snapshot.subtree_range(D), Some(3..4));
    assert_eq!(snapshot.subtree_range(E), Some(4..5));
    assert_eq!(snapshot.subtree_range(99), None);
    assert_eq!(snapshot.row_for_node(D), Some(3));
    assert_eq!(snapshot.row_for_node(99), None);
}

#[test]
fn visible_rows_are_clamped() {
    let snapshot = sample();
    let ids = |rows: &[BinderRow]| rows.iter().map(|row| row.id).collect::<Vec<_>>();
    assert_eq!(ids(snapshot.visible_rows(1, 2)), vec![B, C]);
    assert_eq!(ids(snapshot.visible_rows(3, 10)), vec![D, E]);
    assert_eq!(ids(snapshot.visible_rows(9, 2)), Vec::<u128>::new());
    assert_eq!(ids(snapshot.visible_rows(0, usize::MAX)), vec![A, B, C, D, E]);
    assert!(BinderSnapshot::from_rows(Vec::new()).is_empty());
}

#[test]
fn a_later_duplicate_row_wins_the_lookup() {
    let snapshot = BinderSnapshot::from_rows(vec![row(A, None, 0, "first"), row(A, None, 0, "second")]);
    assert_eq!(snapshot.row_for_node(A), Some(1));
}

#[test]
fn removing_a_subtree_drops_its_descendants() {
    let mut snapshot = sample();
    assert_eq!(
        snapshot.remove_subtree(B),
        Some(OutlineDelta::Remove { first: 1, count: 2 })
    );
    assert_eq!(shape(&snapshot), vec![(A, None, 0), (D, Some(A), 1), (E, None, 0)]);
    assert_eq!(snapshot.row_for_node(D), Some(1));
    assert_eq!(snapshot.row_for_node(C), None);
    assert_eq!(snapshot.remove_subtree(C), None);
}

#[test]
fn inserting_places_rows_after_the_previous_sibling_one_level_down() {
    let mut snapshot = sample();
    let subtree = vec![row(10, Some(A), 0, "X"), row(11, Some(10), 1, "Y")];
    assert_eq!(
        snapshot.insert_subtree(A, Some(B), subtree),
        Ok(OutlineDelta::Insert { first: 3, count: 2 })
    );
    assert_eq!(
        shape(&snapshot),
        vec![
            (A, None, 0),
            (B, Some(A), 1),
            (C, Some(B), 2),
            (10, Some(A), 1),
            (11, Some(10), 2),
            (D, Some(A), 1),
            (E, None, 0),
        ]
    );
    assert_eq!(snapshot.row_for_node(D), Some(5));
    assert_eq!(snapshot.row_for_node(11), Some(4));
}

#[test]
fn a_first_child_goes_right_after_its_parent() {
    let mut snapshot = sample();
    assert_eq!(snapshot.insertion_row(E, None), Ok(5));
    assert_eq!(snapshot.child_depth(B), Some(2));
    assert_eq!(
        snapshot.insert_subtree(B, None, vec![row(20, Some(B), 0, "Z")]),
        Ok(OutlineDelta::Insert { first: 2, count: 1 })
    );
    assert_eq!(snapshot.rows()[2].id, 20);
    assert_eq!(snapshot.rows()[2].depth, 2);
    assert_eq!(snapshot.rows()[3].id, C);
}

#[test]
fn insertion_reports_missing_rows() {
    let mut snapshot = sample();
    assert_eq!(
        snapshot.insert_subtree(99, None, vec![row(30, Some(99), 0, "W")]),
        Err(OutlineError::ParentRowAbsent)
    );
    assert_eq!(
        snapshot.insert_subtree(A, Some(99), vec![row(30, Some(A), 0, "W")]),
        Err(OutlineError::PreviousRowAbsent)
    );
    assert_eq!(
        snapshot.insert_subtree(98, Some(B), vec![row(30, Some(98), 0, "W")]),
        Err(OutlineError::ParentRowAbsent)
    );
    assert_eq!(snapshot.len(), 5);
    assert_eq!(snapshot.child_depth(99), None);
}

#[test]
fn moving_under_another_root_keeps_every_row() {
    let mut snapshot = sample();
    assert_eq!(
        snapshot.move_subtree(B, E, None),
        Ok((
            OutlineDelta::Move {
                first: 1,
                destination: 3,
                count: 2
            },
            Some(A)
        ))
    );
    assert_eq!(
        shape(&snapshot),
        vec![
            (A, None, 0),
            (D, Some(A), 1),
            (E, None, 0),
            (B, Some(E), 1),
            (C, Some(B), 2),
        ]
    );
    assert_eq!(snapshot.subtree_range(E), Some(2..5));
}

#[test]
fn indenting_deepens_the_moved_rows() {
    let mut snapshot = sample();
    assert_eq!(
        snapshot.move_subtree(D, B, Some(C)),
        Ok((
            OutlineDelta::Move {
                first: 3,
                destination: 3,
                count: 1
            },
            Some(A)
        ))
    );
    assert_eq!(
        shape(&snapshot),
        vec![
            (A, None, 0),
            (B, Some(A), 1),
            (C, Some(B), 2),
            (D, Some(B), 2),
            (E, None, 0),
        ]
    );
}

#[test]
fn outdenting_raises_the_whole_subtree() {
    let mut snapshot = sample();
    assert_eq!(
        snapshot.move_subtree(C, A, Some(B)),
        Ok((
            OutlineDelta::Move {
                first: 2,
                destination: 2,
                count: 1
            },
            Some(B)
        ))
    );
    assert_eq!(
        shape(&snapshot),
        vec![
            (A, None, 0),
            (B, Some(A), 1),
            (C, Some(A), 1),
            (D, Some(A), 1),
            (E, None, 0),
        ]
    );
}

#[test]
fn moving_an_unknown_row_changes_nothing() {
    let mut snapshot = sample();
    assert_eq!(snapshot.move_subtree(99, A, None), Err(OutlineError::RowAbsent));
    assert_eq!(snapshot.len(), 5);
    let mut snapshot = sample();
    assert_eq!(snapshot.move_subtree(B, 99, None), Err(OutlineError::ParentRowAbsent));
    assert_eq!(shape(&snapshot), vec![(A, None, 0), (D, Some(A), 1), (E, None, 0)]);
}

#[test]
fn refreshing_keeps_the_node_and_depth_of_the_row() {
    let mut snapshot = sample();
    let mut fresh = row(999, Some(A), 7, "Renamed");
    fresh.has_children = true;
    assert_eq!(
        snapshot.refresh_row(B, fresh),
        Some(OutlineDelta::Data { first: 1, count: 1 })
    );
    let shown = &snapshot.rows()[1];
    assert_eq!((shown.id, shown.depth), (B, 1));
    assert_eq!(shown.title, "Renamed");
    assert!(shown.has_children);
    assert_eq!(snapshot.row_for_node(B), Some(1));
    assert_eq!(snapshot.refresh_row(99, row(99, None, 0, "none")), None);
}
