//! Central product command catalog used by menus and the command palette.

use crate::chars::{
    ascii_lower_chars, ascii_lower_seq, chars_of, contains_chars, contains_subseq,
    split_whitespace_chars, whitespace_words,
};
use vstd::prelude::*;

verus! {

/// Stable command metadata. Identifiers are intentionally not localized.
#[derive(Clone, Copy, Debug, Eq, PartialEq)]
pub struct CommandSpec {
    /// Stable dispatch identifier.
    pub id: &'static str,
    /// English source label, localized by the UI.
    pub label: &'static str,
    /// Portable shortcut spelling shown by the palette.
    pub shortcut: &'static str,
    /// Whether the command is unavailable without an open project.
    pub requires_project: bool,
    /// Whether the command is unavailable without a selected node.
    pub requires_selection: bool,
}

/// Builds one catalog entry.
pub fn command(
    id: &'static str,
    label: &'static str,
    shortcut: &'static str,
    requires_project: bool,
    requires_selection: bool,
) -> (c: CommandSpec)
    ensures
        c == (CommandSpec { id, label, shortcut, requires_project, requires_selection }),
{
    CommandSpec { id, label, shortcut, requires_project, requires_selection }
}

/// The version-1 command catalog, in palette order.
pub open spec fn catalog() -> Seq<CommandSpec> {
    seq![
        CommandSpec { id: "project.new", label: "New Project…", shortcut: "Ctrl+N", requires_project: false, requires_selection: false },
        CommandSpec { id: "project.open", label: "Open Project…", shortcut: "Ctrl+O", requires_project: false, requires_selection: false },
        CommandSpec { id: "project.close", label: "Close Project", shortcut: "Ctrl+W", requires_project: true, requires_selection: false },
        CommandSpec { id: "project.export", label: "Export manuscript…", shortcut: "Ctrl+Shift+E", requires_project: true, requires_selection: false },
        CommandSpec { id: "project.diagnostics", label: "Export diagnostics…", shortcut: "", requires_project: false, requires_selection: false },
        CommandSpec { id: "edit.undo", label: "Undo structural change", shortcut: "Ctrl+Z", requires_project: true, requires_selection: false },
        CommandSpec { id: "edit.redo", label: "Redo structural change", shortcut: "Ctrl+Shift+Z", requires_project: true, requires_selection: false },
        CommandSpec { id: "edit.find", label: "Find in document", shortcut: "Ctrl+F", requires_project: true, requires_selection: false },
        CommandSpec { id: "edit.replace_project", label: "Replace across project…", shortcut: "Ctrl+Alt+F", requires_project: true, requires_selection: false },
        CommandSpec { id: "structure.new_group", label: "New Group", shortcut: "", requires_project: true, requires_selection: true },
        CommandSpec { id: "structure.new_scene", label: "New Scene", shortcut: "", requires_project: true, requires_selection: true },
        CommandSpec { id: "structure.move_up", label: "Move Up", shortcut: "Ctrl+Shift+Up", requires_project: true, requires_selection: true },
        CommandSpec { id: "structure.move_down", label: "Move Down", shortcut: "Ctrl+Shift+Down", requires_project: true, requires_selection: true },
        CommandSpec { id: "structure.indent", label: "Indent", shortcut: "Ctrl+]", requires_project: true, requires_selection: true },
        CommandSpec { id: "structure.outdent", label: "Outdent", shortcut: "Ctrl+[", requires_project: true, requires_selection: true },
        CommandSpec { id: "structure.duplicate", label: "Duplicate", shortcut: "", requires_project: true, requires_selection: true },
        CommandSpec { id: "structure.trash", label: "Move to Trash", shortcut: "Delete", requires_project: true, requires_selection: true },
        CommandSpec { id: "view.binder", label: "Toggle binder", shortcut: "", requires_project: false, requires_selection: false },
        CommandSpec { id: "view.inspector", label: "Toggle inspector", shortcut: "", requires_project: false, requires_selection: false },
        CommandSpec { id: "view.split", label: "Split workspace", shortcut: "", requires_project: true, requires_selection: false },
        CommandSpec { id: "view.next_pane", label: "Focus next pane", shortcut: "Ctrl+Tab", requires_project: true, requires_selection: false },
        CommandSpec { id: "view.swap_panes", label: "Swap panes", shortcut: "", requires_project: true, requires_selection: false },
        CommandSpec { id: "view.settings", label: "Settings…", shortcut: "Ctrl+,", requires_project: false, requires_selection: false },
        CommandSpec { id: "help.keyboard", label: "Keyboard shortcuts", shortcut: "Ctrl+?", requires_project: false, requires_selection: false },
        CommandSpec { id: "help.onboarding", label: "ParchMint tour", shortcut: "", requires_project: false, requires_selection: false },
    ]
}

/// The version-1 command catalog. UI surfaces dispatch these stable
/// identifiers; they must not maintain independent command names or
/// availability rules.
pub fn command_catalog() -> (commands: Vec<CommandSpec>)
    ensures
        commands@ == catalog(),
{
    let commands = vec![
        command("project.new", "New Project…", "Ctrl+N", false, false),
        command("project.open", "Open Project…", "Ctrl+O", false, false),
        command("project.close", "Close Project", "Ctrl+W", true, false),
        command("project.export", "Export manuscript…", "Ctrl+Shift+E", true, false),
        command("project.diagnostics", "Export diagnostics…", "", false, false),
        command("edit.undo", "Undo structural change", "Ctrl+Z", true, false),
        command("edit.redo", "Redo structural change", "Ctrl+Shift+Z", true, false),
        command("edit.find", "Find in document", "Ctrl+F", true, false),
        command("edit.replace_project", "Replace across project…", "Ctrl+Alt+F", true, false),
        command("structure.new_group", "New Group", "", true, true),
        command("structure.new_scene", "New Scene", "", true, true),
        command("structure.move_up", "Move Up", "Ctrl+Shift+Up", true, true),
        command("structure.move_down", "Move Down", "Ctrl+Shift+Down", true, true),
        command("structure.indent", "Indent", "Ctrl+]", true, true),
        command("structure.outdent", "Outdent", "Ctrl+[", true, true),
        command("structure.duplicate", "Duplicate", "", true, true),
        command("structure.trash", "Move to Trash", "Delete", true, true),
        command("view.binder", "Toggle binder", "", false, false),
        command("view.inspector", "Toggle inspector", "", false, false),
        command("view.split", "Split workspace", "", true, false),
        command("view.next_pane", "Focus next pane", "Ctrl+Tab", true, false),
        command("view.swap_panes", "Swap panes", "", true, false),
        command("view.settings", "Settings…", "Ctrl+,", false, false),
        command("help.keyboard", "Keyboard shortcuts", "Ctrl+?", false, false),
        command("help.onboarding", "ParchMint tour", "", false, false),
    ];
    assert(commands@ =~= catalog());
    commands
}

/// The text a palette query is matched against: identifier, label, and
/// shortcut separated by single spaces, ASCII-lowercased.
pub open spec fn command_haystack(c: CommandSpec) -> Seq<char> {
    ascii_lower_seq(c.id@ + seq![' '] + c.label@ + seq![' '] + c.shortcut@)
}

/// The palette's search words: the whitespace-separated words of the query,
/// ASCII-lowercased.
pub open spec fn query_words(query: Seq<char>) -> Seq<Seq<char>> {
    Seq::new(whitespace_words(query).len(), |k: int| ascii_lower_seq(whitespace_words(query)[k]))
}

/// A command is offered when its context requirements hold and every query
/// word occurs in its haystack.
pub open spec fn command_offered(
    c: CommandSpec,
    words: Seq<Seq<char>>,
    project_open: bool,
    has_selection: bool,
) -> bool {
    &&& (!c.requires_project || project_open)
    &&& (!c.requires_selection || has_selection)
    &&& forall|k: int| 0 <= k < words.len() ==> contains_subseq(command_haystack(c), #[trigger] words[k])
}

/// The catalog entries offered for a query, in catalog order.
pub open spec fn offered_commands(
    query: Seq<char>,
    project_open: bool,
    has_selection: bool,
) -> Seq<CommandSpec> {
    catalog().filter(offered_predicate(query_words(query), project_open, has_selection))
}

/// `command_offered` as a filter predicate.
pub open spec fn offered_predicate(
    words: Seq<Seq<char>>,
    project_open: bool,
    has_selection: bool,
) -> spec_fn(CommandSpec) -> bool {
    |c: CommandSpec| command_offered(c, words, project_open, has_selection)
}

fn haystack_of(c: &CommandSpec) -> (h: Vec<char>)
    ensures
        h@ == command_haystack(*c),
{
    let mut text = chars_of(c.id);
    text.push(' ');
    let mut label = chars_of(c.label);
    text.append(&mut label);
    text.push(' ');
    let mut shortcut = chars_of(c.shortcut);
    text.append(&mut shortcut);
    proof {
        assert(text@ =~= c.id@ + seq![' '] + c.label@ + seq![' '] + c.shortcut@);
    }
    ascii_lower_chars(&text)
}

fn all_words_occur(haystack: &Vec<char>, words: &Vec<Vec<char>>) -> (r: bool)
    ensures
        r == forall|t: int| 0 <= t < words@.len() ==> contains_subseq(haystack@, #[trigger] words@[t]@),
{
    let mut w: usize = 0;
    while w < words.len()
        invariant
            w <= words@.len(),
            forall|t: int| 0 <= t < w ==> contains_subseq(haystack@, #[trigger] words@[t]@),
        decreases words.len() - w,
    {
        if !contains_chars(haystack, &words[w]) {
            return false;
        }
        w = w + 1;
    }
    true
}

/// Returns palette results in stable catalog order using all query words.
pub fn matching_commands(query: &str, project_open: bool, has_selection: bool) -> (result: Vec<
    CommandSpec,
>)
    ensures
        result@ == offered_commands(query@, project_open, has_selection),
{
    let raw_words = split_whitespace_chars(&chars_of(query));
    let mut words: Vec<Vec<char>> = Vec::new();
    let mut k: usize = 0;
    while k < raw_words.len()
        invariant
            k <= raw_words@.len(),
            raw_words@.len() == whitespace_words(query@).len(),
            forall|t: int| 0 <= t < raw_words@.len() ==> #[trigger] raw_words@[t]@ == whitespace_words(query@)[t],
            words@.len() == k,
            forall|t: int| 0 <= t < k ==> #[trigger] words@[t]@ == query_words(query@)[t],
        decreases raw_words.len() - k,
    {
        let lowered = ascii_lower_chars(&raw_words[k]);
        words.push(lowered);
        k = k + 1;
    }
    let ghost qw = query_words(query@);
    let commands = command_catalog();
    let ghost pred = offered_predicate(qw, project_open, has_selection);
    let mut result: Vec<CommandSpec> = Vec::new();
    let mut i: usize = 0;
    while i < commands.len()
        invariant
            i <= commands@.len(),
            commands@ == catalog(),
            pred == offered_predicate(qw, project_open, has_selection),
            words@.len() == qw.len(),
            forall|t: int| 0 <= t < words@.len() ==> #[trigger] words@[t]@ == qw[t],
            result@ == catalog().take(i as int).filter(pred),
        decreases commands.len() - i,
    {
        let c = commands[i];
        let mut offered = (!c.requires_project || project_open) && (!c.requires_selection
            || has_selection);
        if offered {
            let haystack = haystack_of(&c);
            offered = all_words_occur(&haystack, &words);
        }
        proof {
            if (!c.requires_project || project_open) && (!c.requires_selection || has_selection) {
                let h = command_haystack(c);
                if offered {
                    assert forall|t: int| 0 <= t < qw.len() implies contains_subseq(h, #[trigger] qw[t]) by {
                        assert(words@[t]@ == qw[t]);
                    }
                } else {
                    let t = choose|t: int| 0 <= t < words@.len() && !contains_subseq(h, #[trigger] words@[t]@);
                    assert(words@[t]@ == qw[t]);
                    assert(!contains_subseq(h, qw[t]));
                }
            }
            assert(offered == command_offered(c, qw, project_open, has_selection));
            assert(pred(c) == command_offered(c, qw, project_open, has_selection));
            assert(offered == pred(c));
        }
        reveal_with_fuel(Seq::filter, 1);
        assert(catalog().take(i + 1).drop_last() =~= catalog().take(i as int));
        if offered {
            result.push(c);
        }
        i = i + 1;
    }
    assert(catalog().take(i as int) =~= catalog());
    result
}

} // verus!

verus! {

/// The palette respects context: every command it offers can run with the
/// given project and selection state, and carries every query word.
pub proof fn lemma_offered_commands_respect_context(
    query: Seq<char>,
    project_open: bool,
    has_selection: bool,
    i: int,
)
    requires
        0 <= i < offered_commands(query, project_open, has_selection).len(),
    ensures
        ({
            let c = offered_commands(query, project_open, has_selection)[i];
            &&& !c.requires_project || project_open
            &&& !c.requires_selection || has_selection
            &&& forall|k: int|
                0 <= k < query_words(query).len() ==> contains_subseq(
                    command_haystack(c),
                    #[trigger] query_words(query)[k],
                )
        }),
{
    let pred = offered_predicate(query_words(query), project_open, has_selection);
    catalog().lemma_filter_pred(pred, i);
}

} // verus!
