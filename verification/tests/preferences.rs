use parchmint::preferences::{
    loaded_preferences, reconcile_preferences, select_nodes, PaneError, PaneWorkspaceState,
    PreferencesLoad, WorkspacePreferences,
};
use parchmint::workspace::{PaneView, SplitOrientation, WorkspaceRevisions};
use std::collections::BTreeSet;

fn live(ids: &[u128]) -> BTreeSet<u128> {
    ids.iter().copied().collect()
}

#[test]
fn defaults_show_the_binder_and_an_even_split() {
    let preferences = WorkspacePreferences::default();
    assert_eq!(preferences.version, 1);
    assert!(preferences.binder_visible);
    assert!(preferences.inspector_visible);
    assert!(!preferences.split_enabled);
    assert_eq!(preferences.split_ratio_milli, 500);
    assert_eq!(preferences.split_orientation, SplitOrientation::Horizontal);
    assert_eq!(preferences.focused_pane, 0);
    assert_eq!(preferences.panes, [PaneWorkspaceState::default(); 2]);
    assert_eq!(PaneWorkspaceState::default().view, PaneView::Editor);
    assert_eq!(PaneWorkspaceState::default().node, None);
}

#[test]
fn reconcile_drops_dead_nodes_and_clamps_settings() {
    let mut preferences = WorkspacePreferences::default();
    preferences.version = 7;
    preferences.selected_nodes = vec![1, 2, 3, 2];
    preferences.expanded_nodes = vec![4, 1];
    preferences.focused_pane = 5;
    preferences.split_ratio_milli = 42;
    preferences.active_view = "outline".to_string();
    preferences.panes[0] = PaneWorkspaceState {
        node: Some(9),
        view: PaneView::Attachment,
        pinned: true,
        cursor: 12,
        scroll: 30,
    };
    preferences.panes[1] = PaneWorkspaceState {
        node: Some(2),
        view: PaneView::Cards,
        pinned: true,
        cursor: 3,
        scroll: 4,
    };
    reconcile_preferences(&live(&[1, 2]), &mut preferences);
    assert_eq!(preferences.version, 1);
    assert_eq!(preferences.selected_nodes, vec![1, 2, 2]);
    assert_eq!(preferences.expanded_nodes, vec![1]);
    assert_eq!(preferences.focused_pane, 1);
    assert_eq!(preferences.split_ratio_milli, 100);
    assert_eq!(preferences.active_view, "outline");
    assert_eq!(
        preferences.panes[0],
        PaneWorkspaceState {
            node: None,
            view: PaneView::Outline,
            pinned: false,
            cursor: 0,
            scroll: 0,
        }
    );
    assert_eq!(
        preferences.panes[1],
        PaneWorkspaceState {
            node: Some(2),
            view: PaneView::Cards,
            pinned: false,
            cursor: 3,
            scroll: 4,
        }
    );
}

#[test]
fn reconcile_keeps_a_pinned_second_pane_while_split() {
    let mut preferences = WorkspacePreferences::default();
    preferences.split_enabled = true;
    preferences.split_ratio_milli = 950;
    preferences.panes[1] = PaneWorkspaceState {
        node: Some(2),
        view: PaneView::Attachment,
        pinned: true,
        cursor: 3,
        scroll: 4,
    };
    reconcile_preferences(&live(&[2]), &mut preferences);
    assert_eq!(preferences.split_ratio_milli, 900);
    assert!(preferences.panes[1].pinned);
    assert_eq!(preferences.panes[1].view, PaneView::Attachment);
    let settled = preferences.clone();
    reconcile_preferences(&live(&[2]), &mut preferences);
    assert_eq!(preferences, settled);
}

#[test]
fn loading_uses_current_state_and_falls_back_otherwise() {
    let mut stored = WorkspacePreferences::default();
    stored.binder_visible = false;
    let (preferences, diagnostic) = loaded_preferences(PreferencesLoad::Parsed(stored.clone()));
    assert_eq!(preferences, stored);
    assert_eq!(diagnostic, None);

    let (preferences, diagnostic) = loaded_preferences(PreferencesLoad::Missing);
    assert_eq!(preferences, WorkspacePreferences::default());
    assert_eq!(diagnostic, None);

    let mut future = WorkspacePreferences::default();
    future.version = 12;
    let (preferences, diagnostic) = loaded_preferences(PreferencesLoad::Parsed(future));
    assert_eq!(preferences, WorkspacePreferences::default());
    assert_eq!(diagnostic.as_deref(), Some("workspace format 12 is unsupported"));

    let (_, diagnostic) = loaded_preferences(PreferencesLoad::Invalid("bad key".to_string()));
    assert_eq!(diagnostic.as_deref(), Some("workspace state is invalid: bad key"));

    let (_, diagnostic) =
        loaded_preferences(PreferencesLoad::Unreadable("permission denied".to_string()));
    assert_eq!(
        diagnostic.as_deref(),
        Some("workspace state could not be read: permission denied")
    );
}

#[test]
fn malformed_or_stale_workspace_falls_back_without_blocking_project_open() {
    let mut stored = WorkspacePreferences::default();
    stored.version = 99;
    stored.split_ratio_milli = 1;
    let (mut preferences, diagnostic) = loaded_preferences(PreferencesLoad::Parsed(stored));
    reconcile_preferences(&live(&[]), &mut preferences);
    assert!(diagnostic.is_some());
    assert_eq!(preferences.version, parchmint::workspace::WORKSPACE_FORMAT_VERSION);
    assert_eq!(preferences.split_ratio_milli, 500);
}

#[test]
fn opening_in_one_pane_leaves_the_other_alone() {
    let mut preferences = WorkspacePreferences::default();
    preferences.split_enabled = true;
    preferences.panes[1] = PaneWorkspaceState {
        node: Some(7),
        view: PaneView::Editor,
        pinned: true,
        cursor: 40,
        scroll: 9,
    };
    let other = preferences.panes[1];
    preferences.panes[0].cursor = 5;
    assert_eq!(preferences.show_in_pane(0, Some(3), PaneView::Editor), Ok(()));
    assert_eq!(preferences.panes[0].node, Some(3));
    assert_eq!(preferences.panes[0].cursor, 0);
    assert_eq!(preferences.panes[1], other);
    assert_eq!(preferences.focused_pane, 0);
    assert_eq!(
        preferences.show_in_pane(2, Some(3), PaneView::Editor),
        Err(PaneError::InvalidPane)
    );
    assert_eq!(PaneError::InvalidPane.message(), "pane index must be zero or one");
}

#[test]
fn a_node_already_shown_elsewhere_moves_the_focus_there() {
    let mut preferences = WorkspacePreferences::default();
    preferences.panes[1].node = Some(7);
    assert_eq!(preferences.pane_showing(7, 0), Some(1));
    assert_eq!(preferences.pane_showing(7, 1), None);
    assert!(preferences.focus_pane_showing(0, Some(7)));
    assert_eq!(preferences.focused_pane, 1);
    assert!(!preferences.focus_pane_showing(0, Some(8)));
    assert!(!preferences.focus_pane_showing(0, None));
}

#[test]
fn navigation_skips_a_pinned_focused_pane() {
    let mut preferences = WorkspacePreferences::default();
    assert_eq!(preferences.navigation_pane(), Some(0));
    preferences.panes[0].node = Some(4);
    assert_eq!(preferences.set_pane_pin(0, true), Ok(()));
    assert!(preferences.panes[0].pinned);
    assert_eq!(preferences.navigation_pane(), None);
    preferences.focused_pane = 9;
    assert_eq!(preferences.navigation_pane(), Some(1));
    assert_eq!(preferences.set_pane_pin(1, true), Ok(()));
    assert!(!preferences.panes[1].pinned, "a pane without a node is never pinned");
    assert_eq!(preferences.set_pane_pin(3, true), Err(PaneError::InvalidPane));
}

#[test]
fn views_focus_split_and_closing() {
    let mut preferences = WorkspacePreferences::default();
    assert_eq!(
        preferences.set_pane_view(1, PaneView::Editor),
        Err(PaneError::NoDocument)
    );
    assert_eq!(
        PaneError::NoDocument.message(),
        "open a document before selecting this view"
    );
    assert_eq!(preferences.set_pane_view(1, PaneView::Cards), Ok(()));
    assert_eq!(preferences.panes[1].view, PaneView::Cards);
    assert_eq!(preferences.focused_pane, 1);
    assert_eq!(preferences.focus_next_pane(), 0, "no split: the first pane");
    preferences.set_split(true, SplitOrientation::Vertical, 2000);
    assert_eq!(preferences.split_ratio_milli, 900);
    assert_eq!(preferences.split_orientation, SplitOrientation::Vertical);
    assert_eq!(preferences.focus_next_pane(), 1);
    assert_eq!(preferences.focus_next_pane(), 0);
    assert_eq!(preferences.focus_pane(1), Ok(()));
    assert_eq!(preferences.focus_pane(2), Err(PaneError::InvalidPane));
    preferences.panes[1] = PaneWorkspaceState {
        node: Some(3),
        view: PaneView::Editor,
        pinned: true,
        cursor: 1,
        scroll: 2,
    };
    assert_eq!(preferences.close_pane(1), Ok(()));
    assert!(!preferences.split_enabled);
    assert_eq!(preferences.focused_pane, 0);
    assert_eq!(
        preferences.panes[1],
        PaneWorkspaceState {
            node: None,
            view: PaneView::Outline,
            pinned: false,
            cursor: 0,
            scroll: 0,
        }
    );
    assert_eq!(preferences.pane(1).map(|pane| pane.view), Some(PaneView::Outline));
    assert!(preferences.pane(2).is_none());
}

#[test]
fn trashing_empties_the_panes_that_show_the_subtree() {
    let mut preferences = WorkspacePreferences::default();
    preferences.focused_pane = 3;
    preferences.panes[0] = PaneWorkspaceState {
        node: Some(11),
        view: PaneView::Editor,
        pinned: true,
        cursor: 4,
        scroll: 5,
    };
    preferences.panes[1].node = Some(20);
    let kept = preferences.panes[1];
    preferences.close_panes_showing(&vec![10, 11, 12]);
    assert_eq!(preferences.panes[0].node, None);
    assert_eq!(preferences.panes[0].view, PaneView::Outline);
    assert!(!preferences.panes[0].pinned);
    assert_eq!(preferences.panes[1], kept);
    assert_eq!(preferences.focused_pane, 1);
}

#[test]
fn swapping_panes_moves_the_focus_with_them() {
    let mut preferences = WorkspacePreferences::default();
    preferences.panes[0].node = Some(1);
    preferences.panes[1].node = Some(2);
    preferences.swap_panes();
    assert_eq!(preferences.panes[0].node, Some(2));
    assert_eq!(preferences.panes[1].node, Some(1));
    assert_eq!(preferences.focused_pane, 1);
    preferences.swap_panes();
    assert_eq!(preferences.panes[0].node, Some(1));
    assert_eq!(preferences.focused_pane, 0);
}

#[test]
fn selection_keeps_live_nodes_once_and_counts_changes() {
    let live = live(&[1, 2, 3]);
    let selection = select_nodes(&live, &vec![3, 9, 1, 3, 2, 1]);
    assert_eq!(selection, vec![3, 1, 2]);
    let mut revisions = WorkspaceRevisions::default();
    revisions.record_selection(&Vec::new(), &selection);
    assert_eq!(revisions.selection, 1);
    revisions.record_selection(&selection, &vec![3, 1, 2]);
    assert_eq!(revisions.selection, 1);
    assert_eq!(revisions.structure, 0);
    assert_eq!(revisions.content, 0);
}
