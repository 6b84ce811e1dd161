# parchmint

The verified core of a local-first novel-writing application. The public
functions in `src/` carry `requires`/`ensures` contracts that Verus checks;
the few calls into `std` and `sha2` whose behaviour Verus cannot see stand behind small
`#[verifier::external_body]` wrappers whose contracts are stated next to them.

## Layout

- `src/document.rs` — the lifecycle of one open document: UTF-16 editor
  deltas, dirty block ranges, the revisioned journal-then-save protocol,
  source mode, external changes and recovery records. Parse results of the
  Markdown layer and the current time are handed in as values.
- `src/workspace.rs` — recent projects, the literal matcher, project-wide
  replacement previews and their conflict-checked application, and outline
  row deltas.
- `src/replacement.rs` — the undo record a project replacement leaves, the
  document that stops an undo, and what a failed write or undo writes back.
- `src/outline.rs` — the flattened outline rows, each node's row found by
  identity, and the in-place insert, remove, move and refresh edits that keep
  them in step with the tree.
- `src/projection.rs` — the outline projection of a project tree: binder,
  title or status order, focus, and the filter that keeps matches and their
  ancestors.
- `src/placement.rs` — the structural command a drop, move, indent, outdent,
  creation or duplication asks for, read off the tree.
- `src/preferences.rs` — disposable workspace state reconciled with the
  project's live nodes, the two panes, focus, split, and the selection.
- `src/hashing.rs` — SHA-256 identities of recovery content and checkpoint
  intents, and fresh identities for duplicated nodes and documents.
- `src/indexing.rs` — what each progress report of a search-index rebuild
  does to the index status, the stored counts and the outline rows.
- `src/counts.rs` — word and character counts per document, rolled up to
  every node above it.
- `src/text.rs` — Unicode word and character counts, search normalization,
  FNV-1a, and subtree count rollups.
- `src/path.rs` — dialog path normalization (`~`, relative paths, `file:`
  URLs decoded once) and project-name validation.
- `src/commands.rs` — the command palette catalog and its matcher.
- `src/application.rs` — application vocabulary and the stable hexadecimal
  spelling of 128-bit identifiers.
- `src/diagnostics.rs` — the deterministic support report.
- `src/tree.rs`, `src/chars.rs`, `src/encoding.rs` — lazy outline rows,
  character-sequence utilities and UTF-8/UTF-16 facts used by the rest.
- `app/` — file, clock and thread plumbing around the library: TOML files,
  the workspace state file, filesystem preflights, the diagnostics export and
  a background worker.
- `tests/` — scenarios on concrete values.
