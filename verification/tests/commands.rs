use parchmint::commands::{command_catalog, matching_commands};
use std::collections::BTreeSet;

#[test]
fn command_ids_are_unique_and_palette_respects_context() {
    let commands = command_catalog();
    let ids = commands.iter().map(|item| item.id).collect::<BTreeSet<_>>();
    assert_eq!(ids.len(), commands.len());
    assert!(matching_commands("replace project", false, false).is_empty());
    assert_eq!(
        matching_commands("replace project", true, false)[0].id,
        "edit.replace_project"
    );
    assert!(matching_commands("move up", true, false).is_empty());
    assert_eq!(
        matching_commands("move up", true, true)[0].id,
        "structure.move_up"
    );
}

#[test]
fn empty_query_lists_every_command_available_in_context() {
    let all = command_catalog();
    let offered = matching_commands("", true, true);
    assert_eq!(offered.len(), all.len());
    let closed = matching_commands("   ", false, false);
    assert!(closed.iter().all(|item| !item.requires_project));
    assert!(!closed.is_empty());
}

#[test]
fn palette_matching_is_case_insensitive_and_needs_every_word() {
    let upper = matching_commands("REPLACE PROJECT", true, false);
    assert_eq!(upper[0].id, "edit.replace_project");
    assert!(matching_commands("replace zebra", true, true).is_empty());
}
