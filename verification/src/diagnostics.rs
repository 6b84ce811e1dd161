//! The local-only support report: a deliberately small, deterministic schema
//! that holds counts and warnings but no document content and no path.

use crate::chars::{chars_of, string_from_chars};
use crate::tree::{decimal, decimal_chars};
use vstd::prelude::*;

verus! {

/// Privacy-preserving facts useful for support. Project paths and document
/// content are not accepted by this type, which makes accidental inclusion
/// impossible at this boundary.
#[derive(Clone, Debug, Eq, PartialEq)]
pub struct DiagnosticsSnapshot {
    /// Whether a project was open at export time.
    pub project_open: bool,
    /// Count only; project node names are never collected.
    pub node_count: usize,
    /// Non-content workspace parse warning, when present.
    pub workspace_warning: Option<String>,
    /// Non-content disposable-index warning, when present.
    pub index_warning: Option<String>,
}

/// A warning as it appears in the report: `none` when absent, and with line
/// breaks turned into spaces so that it stays on its line.
pub open spec fn sanitized(value: Option<Seq<char>>) -> Seq<char> {
    match value {
        None => "none"@,
        Some(text) => text.map_values(|c: char| if c == '\r' || c == '\n' {
            ' '
        } else {
            c
        }),
    }
}

/// `true` or `false`.
pub open spec fn bool_text(b: bool) -> Seq<char> {
    if b {
        "true"@
    } else {
        "false"@
    }
}

/// The view of an optional string.
pub open spec fn optional_view(value: Option<String>) -> Option<Seq<char>> {
    match value {
        Some(s) => Some(s@),
        None => None,
    }
}

/// The full report for `snapshot`, produced by an application of version
/// `version` on operating system `os` and architecture `arch`.
pub open spec fn report_text(
    snapshot: DiagnosticsSnapshot,
    version: Seq<char>,
    os: Seq<char>,
    arch: Seq<char>,
) -> Seq<char> {
    "ParchMint diagnostics\nversion="@ + version + "\nos="@ + os + "\narch="@ + arch
        + "\nproject_open="@ + bool_text(snapshot.project_open) + "\nnode_count="@ + decimal(
        snapshot.node_count as nat,
    ) + "\nworkspace_warning="@ + sanitized(optional_view(snapshot.workspace_warning))
        + "\nindex_warning="@ + sanitized(optional_view(snapshot.index_warning))
        + "\nnetwork_upload=disabled\ncontent_included=false\nproject_paths_included=false\n"@
}

fn push_str(out: &mut Vec<char>, s: &str)
    ensures
        final(out)@ == old(out)@ + s@,
{
    let mut chars = chars_of(s);
    out.append(&mut chars);
}

fn push_sanitized(out: &mut Vec<char>, value: &Option<String>)
    ensures
        final(out)@ == old(out)@ + sanitized(optional_view(*value)),
{
    match value {
        None => push_str(out, "none"),
        Some(text) => {
            let chars = chars_of(text.as_str());
            let ghost start = out@;
            let ghost clean = sanitized(optional_view(*value));
            let mut i: usize = 0;
            while i < chars.len()
                invariant
                    i <= chars@.len(),
                    chars@ == text@,
                    clean == text@.map_values(|c: char| if c == '\r' || c == '\n' {
                        ' '
                    } else {
                        c
                    }),
                    out@ == start + clean.take(i as int),
                decreases chars.len() - i,
            {
                let c = chars[i];
                if c == '\r' || c == '\n' {
                    out.push(' ');
                } else {
                    out.push(c);
                }
                i = i + 1;
                assert(out@ =~= start + clean.take(i as int));
            }
            assert(clean.take(i as int) =~= clean);
        },
    }
}

/// The deterministic plain-text support report for `snapshot`; `version`,
/// `os` and `arch` describe the running application.
pub fn diagnostics_report(snapshot: &DiagnosticsSnapshot, version: &str, os: &str, arch: &str) -> (r: String)
    ensures
        r@ == report_text(*snapshot, version@, os@, arch@),
{
    let mut out: Vec<char> = Vec::new();
    push_str(&mut out, "ParchMint diagnostics\nversion=");
    push_str(&mut out, version);
    push_str(&mut out, "\nos=");
    push_str(&mut out, os);
    push_str(&mut out, "\narch=");
    push_str(&mut out, arch);
    push_str(&mut out, "\nproject_open=");
    if snapshot.project_open {
        push_str(&mut out, "true");
    } else {
        push_str(&mut out, "false");
    }
    push_str(&mut out, "\nnode_count=");
    let mut digits = decimal_chars(snapshot.node_count as u64);
    out.append(&mut digits);
    push_str(&mut out, "\nworkspace_warning=");
    push_sanitized(&mut out, &snapshot.workspace_warning);
    push_str(&mut out, "\nindex_warning=");
    push_sanitized(&mut out, &snapshot.index_warning);
    push_str(
        &mut out,
        "\nnetwork_upload=disabled\ncontent_included=false\nproject_paths_included=false\n",
    );
    string_from_chars(&out)
}

} // verus!
