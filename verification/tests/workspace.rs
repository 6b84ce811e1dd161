use parchmint::workspace::{
    apply_signed_count, data_deltas, default_split_ratio, literal_match_ranges,
    preview_project_replace, replace_selected_in_document, replacement_context,
    signed_count_delta, sort_positions, workspace_format_version, OutlineDelta, ProjectEventKind,
    RecentProject, RecentProjects, ReplaceConflict, ReplaceSource, StructuralCompletion,
    StructuralSaveError, StructuralSaveQueue, WorkspaceRevisions, RECENT_PROJECT_LIMIT,
};

#[test]
fn remembering_moves_a_project_to_the_front_once() {
    let mut recent = RecentProjects::new();
    recent.remember("/a".to_string(), "A".to_string());
    recent.remember("/b".to_string(), "B".to_string());
    recent.remember("/a".to_string(), "A again".to_string());
    assert_eq!(
        recent.entries(),
        &[
            RecentProject {
                path: "/a".to_string(),
                name: "A again".to_string()
            },
            RecentProject {
                path: "/b".to_string(),
                name: "B".to_string()
            },
        ]
    );
}

#[test]
fn recent_projects_are_bounded() {
    let mut recent = RecentProjects::new();
    for index in 0..20 {
        recent.remember(format!("/p{index}"), format!("P{index}"));
    }
    assert_eq!(recent.entries().len(), RECENT_PROJECT_LIMIT);
    assert_eq!(recent.entries()[0].path, "/p19");
    assert_eq!(recent.entries()[11].path, "/p8");
    let restored = RecentProjects::from_entries(recent.entries().to_vec());
    assert_eq!(restored, recent);
}

#[test]
fn literal_matches_are_byte_ranges() {
    assert_eq!(
        literal_match_ranges("the cat, the hat", "the", true),
        vec![(0, 3), (9, 12)]
    );
    assert_eq!(literal_match_ranges("aaaa", "aa", true), vec![(0, 2), (2, 4)]);
    assert_eq!(
        literal_match_ranges("aaaa", "AA", false),
        vec![(0, 2), (1, 3), (2, 4)]
    );
    assert_eq!(
        literal_match_ranges("é The tHE", "the", false),
        vec![(3, 6), (7, 10)]
    );
    assert!(literal_match_ranges("abc", "x", true).is_empty());
}

#[test]
fn replacement_context_is_the_compacted_line() {
    let source = "first line\n  the   quick\tfox  \nlast";
    let start = source.find("quick").unwrap();
    assert_eq!(
        replacement_context(source, start, start + 5),
        "the quick fox"
    );
    let long = "word ".repeat(50);
    let context = replacement_context(&long, 0, 4);
    assert_eq!(context.chars().count(), 158);
    assert!(context.ends_with('…'));
}

#[test]
fn signed_counts_saturate() {
    assert_eq!(signed_count_delta(10, 3), 7);
    assert_eq!(signed_count_delta(3, 10), -7);
    assert_eq!(signed_count_delta(u64::MAX, 0), i64::MAX);
    assert_eq!(signed_count_delta(0, u64::MAX), -i64::MAX);
    assert_eq!(apply_signed_count(10, -3), 7);
    assert_eq!(apply_signed_count(2, -3), 0);
    assert_eq!(apply_signed_count(u64::MAX, 1), u64::MAX);
    assert_eq!(apply_signed_count(5, i64::MIN), 0);
}

#[test]
fn workspace_defaults() {
    assert_eq!(workspace_format_version(), 1);
    assert_eq!(default_split_ratio(), 500);
}

fn source(node: u128, title: &str, body: &str) -> ReplaceSource {
    ReplaceSource {
        node,
        title: title.to_string(),
        body: body.to_string(),
    }
}

#[test]
fn project_replace_previews_selection_conflicts_backups_and_undo() {
    let first = 1;
    let second = 2;
    let sources = vec![
        source(first, "First", "mist on the misty hill\n"),
        source(second, "Second", "MIST and mist\n"),
    ];
    let mut preview = preview_project_replace(&sources, "mist", "fog", true).unwrap();
    assert_eq!(preview.matches().len(), 3);
    let first_exact = preview
        .matches()
        .iter()
        .position(|item| item.node == first && item.start == 0)
        .unwrap();
    assert!(preview.set_selected(first_exact, false));
    assert_eq!(preview.selected_count(), 2);
    assert_eq!(preview.selected_nodes(), vec![first, second]);
    let replaced_first = replace_selected_in_document(
        &preview,
        first,
        "mist on the misty hill\n",
        "mist on the misty hill\n",
    )
    .unwrap();
    assert_eq!(replaced_first.as_deref(), Some("mist on the fogy hill\n"));
    let replaced_second =
        replace_selected_in_document(&preview, second, "MIST and mist\n", "MIST and mist\n")
            .unwrap();
    assert_eq!(replaced_second.as_deref(), Some("MIST and fog\n"));

    let stale = preview_project_replace(&sources, "mist", "rain", true).unwrap();
    let changed = "an external-equivalent local change\n";
    assert_eq!(
        replace_selected_in_document(&stale, first, changed, changed),
        Err(ReplaceConflict { node: first })
    );
}

#[test]
fn replace_preview_refuses_unsafe_requests() {
    let sources = vec![source(1, "A", "text")];
    assert_eq!(
        preview_project_replace(&sources, "", "x", true).unwrap_err(),
        "replacement query cannot be empty"
    );
    assert_eq!(
        preview_project_replace(&sources, &"q".repeat(4_097), "x", true).unwrap_err(),
        "replacement query or value exceeds its safety limit"
    );
    assert!(preview_project_replace(&sources, "é", "x", false).is_err());
    assert!(preview_project_replace(&sources, "é", "x", true).is_ok());
    let crowded = vec![source(1, "A", &"a".repeat(10_001))];
    assert_eq!(
        preview_project_replace(&crowded, "a", "b", true).unwrap_err(),
        "replacement preview exceeds 10,000 changes; narrow the query"
    );
    let full = vec![source(1, "A", &"a".repeat(10_000))];
    assert_eq!(
        preview_project_replace(&full, "a", "b", true).unwrap().matches().len(),
        10_000
    );
}

#[test]
fn replacement_checks_the_disk_and_the_text() {
    let sources = vec![source(7, "A", "Cat cat\n")];
    let preview = preview_project_replace(&sources, "cat", "dog", false).unwrap();
    assert_eq!(preview.matches().len(), 2);
    assert_eq!(
        replace_selected_in_document(&preview, 7, "Cat cat\n", "Cat cat\n").unwrap(),
        Some("dog dog\n".to_string())
    );
    assert_eq!(
        replace_selected_in_document(&preview, 7, "Cat cat\n", "changed on disk"),
        Err(ReplaceConflict { node: 7 })
    );
    assert_eq!(
        replace_selected_in_document(&preview, 8, "x", "x").unwrap(),
        None
    );
    assert!(!{
        let mut copy = preview.clone();
        copy.set_selected(5, false)
    });
}

#[test]
fn changed_rows_become_coalesced_data_deltas() {
    assert_eq!(sort_positions(&vec![5, 3, 9, 3, 1]), vec![1, 3, 3, 5, 9]);
    assert_eq!(
        data_deltas(&vec![5, 3, 4, 9, 10, 1]),
        vec![
            OutlineDelta::Data { first: 1, count: 1 },
            OutlineDelta::Data { first: 3, count: 3 },
            OutlineDelta::Data { first: 9, count: 2 },
        ]
    );
    assert!(data_deltas(&Vec::new()).is_empty());
    assert_eq!(
        data_deltas(&vec![usize::MAX, usize::MAX - 1]),
        vec![OutlineDelta::Data {
            first: usize::MAX - 1,
            count: 2
        }]
    );
}

#[test]
fn project_events_advance_their_own_revision_domain() {
    let mut revisions = WorkspaceRevisions {
        content: 1,
        structure: 1,
        selection: 7,
        presentation: u64::MAX,
    };
    revisions.record_events(&vec![
        ProjectEventKind::NodeCreated,
        ProjectEventKind::NodeTrashed,
        ProjectEventKind::MetadataEdited,
        ProjectEventKind::StyleReplaced,
    ]);
    assert_eq!(
        revisions,
        WorkspaceRevisions {
            content: 2,
            structure: 3,
            selection: 7,
            presentation: u64::MAX,
        }
    );
}

#[test]
fn structural_saves_complete_in_order_and_roll_back_newest_first() {
    let mut queue = StructuralSaveQueue::new();
    assert_eq!(
        queue.complete(1, true),
        Err(StructuralSaveError::NoPendingCommand)
    );
    for _ in 0..3 {
        let sequence = queue.reserve();
        queue.push(sequence);
    }
    assert!(queue.has_pending());
    assert_eq!(queue.complete(2, true), Err(StructuralSaveError::OutOfOrder));
    assert_eq!(
        queue.complete(1, true),
        Ok(StructuralCompletion::Acknowledged { idle: false })
    );
    assert_eq!(
        queue.complete(2, false),
        Ok(StructuralCompletion::RolledBack(vec![3, 2]))
    );
    assert!(!queue.has_pending());
    assert_eq!(queue.reserve(), 4);
}

#[test]
fn exact_preview_on_unchanged_text_replaces_every_selected_match() {
    let body = "mist, mist and more mist\n";
    let sources = vec![source(3, "Fog", body)];
    let preview = preview_project_replace(&sources, "mist", "fog", true).unwrap();
    assert_eq!(preview.selected_count(), 3);
    assert_eq!(
        replace_selected_in_document(&preview, 3, body, body).unwrap(),
        Some("fog, fog and more fog\n".to_string())
    );
}

#[test]
fn overlapping_case_insensitive_matches_conflict_with_themselves() {
    let sources = vec![source(4, "A", "aaa")];
    let preview = preview_project_replace(&sources, "aa", "b", false).unwrap();
    assert_eq!(preview.matches().len(), 2);
    assert_eq!(
        replace_selected_in_document(&preview, 4, "aaa", "aaa"),
        Err(ReplaceConflict { node: 4 })
    );
}
