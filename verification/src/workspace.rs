//! Workspace vocabulary: outline presentation state, recent projects, the
//! literal matcher and context lines used by project-wide replacement, and
//! signed count adjustments.

use crate::chars::{
    chars_of, find_char, first_index_of, join_chars, join_with, last_index_of, rfind_char,
    slice_chars, split_whitespace_chars, string_from_chars, whitespace_words,
};
use crate::encoding::{byte_offset, char_byte_offsets, find_offset, str_byte_len};
use vstd::prelude::*;
use vstd::utf8::{encode_utf8, is_char_boundary, valid_utf8};

verus! {

/// Presentation-only outline sort. It never changes canonical binder order.
#[derive(Clone, Copy, Debug, Default, Eq, PartialEq)]
pub enum OutlineSort {
    /// Canonical sibling ordering.
    #[default]
    Binder,
    /// Case-insensitive title order for the current projection.
    Title,
    /// Status then title for the current projection.
    Status,
}

/// Independent invalidation domains used by view models and background jobs.
#[derive(Clone, Copy, Debug, Default, Eq, PartialEq)]
pub struct WorkspaceRevisions {
    pub content: u64,
    pub structure: u64,
    pub selection: u64,
    pub presentation: u64,
}

/// Typed, stable-ID-derived changes consumed by the outline model.
#[derive(Clone, Debug, Eq, PartialEq)]
pub enum OutlineDelta {
    Insert { first: usize, count: usize },
    Remove { first: usize, count: usize },
    Move { first: usize, destination: usize, count: usize },
    Data { first: usize, count: usize },
    Reset,
}

/// The independently versioned, disposable workspace format.
pub const WORKSPACE_FORMAT_VERSION: u32 = 1;

/// Default for a missing workspace format version.
pub fn workspace_format_version() -> (v: u32)
    ensures
        v == WORKSPACE_FORMAT_VERSION,
{
    WORKSPACE_FORMAT_VERSION
}

/// Default split ratio, in thousandths: an even split.
pub fn default_split_ratio() -> (r: u16)
    ensures
        r == 500,
{
    500
}

/// One of the two symmetric panes.
#[derive(Clone, Copy, Debug, Default, Eq, PartialEq)]
pub enum PaneView {
    #[default]
    Editor,
    Attachment,
    Outline,
    Cards,
}

/// Split placement recorded independently from content data.
#[derive(Clone, Copy, Debug, Default, Eq, PartialEq)]
pub enum SplitOrientation {
    #[default]
    Horizontal,
    Vertical,
}

/// A recent project entry stored outside canonical project data.
#[derive(Clone, Debug, Eq, PartialEq)]
pub struct RecentProject {
    pub path: String,
    pub name: String,
}

/// At most this many recent projects are kept.
pub const RECENT_PROJECT_LIMIT: usize = 12;

/// Small bounded recent-project list, most recent first.
#[derive(Clone, Debug, Eq, PartialEq)]
pub struct RecentProjects {
    entries: Vec<RecentProject>,
}

impl View for RecentProjects {
    type V = Seq<RecentProject>;

    closed spec fn view(&self) -> Seq<RecentProject> {
        self.entries@
    }
}

/// The list after remembering `path`: the new entry first, then every older
/// entry for a different path in its previous order, cut to the limit.
pub open spec fn remembered(
    entries: Seq<RecentProject>,
    path: Seq<char>,
    entry: RecentProject,
) -> Seq<RecentProject> {
    let kept = seq![entry] + entries.filter(|e: RecentProject| e.path@ != path);
    if kept.len() <= RECENT_PROJECT_LIMIT {
        kept
    } else {
        kept.take(RECENT_PROJECT_LIMIT as int)
    }
}

impl RecentProjects {
    /// An empty list.
    pub fn new() -> (r: Self)
        ensures
            r@ == Seq::<RecentProject>::empty(),
    {
        RecentProjects { entries: Vec::new() }
    }

    /// Builds a list from stored entries, in their stored order.
    pub fn from_entries(entries: Vec<RecentProject>) -> (r: Self)
        ensures
            r@ == entries@,
    {
        RecentProjects { entries }
    }

    /// The remembered projects, most recent first.
    pub fn entries(&self) -> (r: &[RecentProject])
        ensures
            r@ == self@,
    {
        self.entries.as_slice()
    }

    /// Moves `path` to the front under `name`, dropping any older entry for
    /// the same path and anything beyond the limit.
    pub fn remember(&mut self, path: String, name: String)
        ensures
            final(self)@ == remembered(
                old(self)@,
                path@,
                RecentProject { path: path, name: name },
            ),
    {
        let ghost pred = |e: RecentProject| e.path@ != path@;
        let ghost previous = self.entries@;
        let mut kept: Vec<RecentProject> = Vec::new();
        let mut i: usize = 0;
        while i < self.entries.len()
            invariant
                i <= previous.len(),
                self.entries@ == previous,
                previous == old(self)@,
                pred == (|e: RecentProject| e.path@ != path@),
                kept@ == previous.take(i as int).filter(pred),
            decreases previous.len() - i,
        {
            reveal_with_fuel(Seq::filter, 1);
            assert(previous.take(i + 1).drop_last() =~= previous.take(i as int));
            let same = self.entries[i].path == path;
            if !same {
                let entry = RecentProject {
                    path: self.entries[i].path.clone(),
                    name: self.entries[i].name.clone(),
                };
                assert(entry == previous[i as int]);
                kept.push(entry);
            }
            i = i + 1;
        }
        assert(previous.take(i as int) =~= previous);
        let ghost filtered = kept@;
        kept.insert(0, RecentProject { path, name });
        assert(kept@ =~= seq![kept@[0]] + filtered);
        if kept.len() > RECENT_PROJECT_LIMIT {
            kept.truncate(RECENT_PROJECT_LIMIT);
        }
        self.entries = kept;
    }
}

/// Remembering a project puts it first, lists its path exactly once, and
/// never keeps more than the limit.
pub proof fn lemma_remembered_first_once_and_bounded(
    entries: Seq<RecentProject>,
    path: Seq<char>,
    entry: RecentProject,
)
    requires
        entry.path@ == path,
    ensures
        remembered(entries, path, entry).len() >= 1,
        remembered(entries, path, entry)[0] == entry,
        remembered(entries, path, entry).len() <= RECENT_PROJECT_LIMIT,
        forall|i: int|
            1 <= i < remembered(entries, path, entry).len() ==> (#[trigger] remembered(
                entries,
                path,
                entry,
            )[i]).path@ != path,
{
    let pred = |e: RecentProject| e.path@ != path;
    let rest = entries.filter(pred);
    let kept = seq![entry] + rest;
    assert forall|i: int| 1 <= i < kept.len() implies (#[trigger] kept[i]).path@ != path by {
        entries.lemma_filter_pred(pred, i - 1);
        assert(kept[i] == rest[i - 1]);
    }
}

/// Signed difference of two counts, saturating at `±i64::MAX`.
pub fn signed_count_delta(after: u64, before: u64) -> (d: i64)
    ensures
        d == crate::document::signed_delta(after as int, before as int),
{
    crate::document::signed_difference(after, before)
}

/// Applies a signed adjustment to a count, saturating at `0` and `u64::MAX`.
pub fn apply_signed_count(value: u64, delta: i64) -> (r: u64)
    ensures
        r == if value + delta < 0 {
            0
        } else if value + delta > u64::MAX {
            u64::MAX as int
        } else {
            value + delta
        },
{
    if delta >= 0 {
        let d = delta as u64;
        if value <= u64::MAX - d {
            value + d
        } else {
            u64::MAX
        }
    } else {
        let magnitude: u64 = if delta == i64::MIN {
            0x8000_0000_0000_0000
        } else {
            (-delta) as u64
        };
        if value >= magnitude {
            value - magnitude
        } else {
            0
        }
    }
}

/// ASCII case folding of one byte.
pub open spec fn ascii_lower_byte(b: u8) -> u8 {
    if 0x41 <= b <= 0x5A {
        (b + 32) as u8
    } else {
        b
    }
}

/// `query` occurs in `source` at byte `p`, comparing bytes exactly or, when
/// `fold_case`, after ASCII case folding.
pub open spec fn bytes_match_at(source: Seq<u8>, query: Seq<u8>, p: int, fold_case: bool) -> bool {
    &&& 0 <= p
    &&& p + query.len() <= source.len()
    &&& forall|j: int|
        0 <= j < query.len() ==> if fold_case {
            ascii_lower_byte(#[trigger] source[p + j]) == ascii_lower_byte(query[j])
        } else {
            source[p + j] == query[j]
        }
}

/// Case-insensitive matches from byte `p` on: every character start whose
/// following bytes equal the query up to ASCII case and end on a character
/// boundary (matches may overlap).
pub open spec fn folded_matches_from(source: Seq<u8>, query: Seq<u8>, p: int) -> Seq<(int, int)>
    decreases source.len() - p,
{
    if p >= source.len() || p < 0 {
        Seq::empty()
    } else {
        (if is_char_boundary(source, p) && bytes_match_at(source, query, p, true) && is_char_boundary(
            source,
            p + query.len(),
        ) {
            seq![(p, p + query.len())]
        } else {
            Seq::empty()
        }) + folded_matches_from(source, query, p + 1)
    }
}

/// Exact matches from byte `p` on, found left to right without overlap (a
/// match resumes the search at its end).
pub open spec fn exact_matches_from(source: Seq<u8>, query: Seq<u8>, p: int) -> Seq<(int, int)>
    decreases source.len() + 1 - p,
{
    if p < 0 || query.len() == 0 || p + query.len() > source.len() {
        Seq::empty()
    } else if is_char_boundary(source, p) && bytes_match_at(source, query, p, false) {
        seq![(p, p + query.len())] + exact_matches_from(source, query, p + query.len())
    } else {
        exact_matches_from(source, query, p + 1)
    }
}

/// Every character boundary from byte `p` on, as an empty match.
pub open spec fn boundary_matches_from(source: Seq<u8>, p: int) -> Seq<(int, int)>
    decreases source.len() + 1 - p,
{
    if p < 0 || p > source.len() {
        Seq::empty()
    } else {
        (if is_char_boundary(source, p) {
            seq![(p, p)]
        } else {
            Seq::empty()
        }) + boundary_matches_from(source, p + 1)
    }
}

/// The literal matches `literal_match_ranges` reports, as byte ranges.
pub open spec fn literal_matches(source: Seq<char>, query: Seq<char>, case_sensitive: bool) -> Seq<
    (int, int),
> {
    let sb = encode_utf8(source);
    let qb = encode_utf8(query);
    if !case_sensitive {
        folded_matches_from(sb, qb, 0)
    } else if qb.len() == 0 {
        boundary_matches_from(sb, 0)
    } else {
        exact_matches_from(sb, qb, 0)
    }
}

proof fn lemma_folded_match_bounds(source: Seq<u8>, query: Seq<u8>, p: int, k: int)
    requires
        0 <= k < folded_matches_from(source, query, p).len(),
    ensures
        ({
            let m = folded_matches_from(source, query, p)[k];
            &&& is_char_boundary(source, m.0)
            &&& is_char_boundary(source, m.1)
            &&& m.1 == m.0 + query.len()
            &&& bytes_match_at(source, query, m.0, true)
        }),
    decreases source.len() - p,
{
    if !(p >= source.len() || p < 0) {
        let head: Seq<(int, int)> = if is_char_boundary(source, p) && bytes_match_at(source, query, p, true)
            && is_char_boundary(source, p + query.len()) {
            seq![(p, p + query.len())]
        } else {
            Seq::empty()
        };
        let tail = folded_matches_from(source, query, p + 1);
        assert(folded_matches_from(source, query, p) == head + tail);
        if k >= head.len() {
            lemma_folded_match_bounds(source, query, p + 1, k - head.len());
        }
    }
}

proof fn lemma_exact_match_bounds(source: Seq<u8>, query: Seq<u8>, p: int, k: int)
    requires
        0 <= k < exact_matches_from(source, query, p).len(),
    ensures
        ({
            let m = exact_matches_from(source, query, p)[k];
            &&& is_char_boundary(source, m.0)
            &&& m.1 == m.0 + query.len()
            &&& bytes_match_at(source, query, m.0, false)
        }),
    decreases source.len() + 1 - p,
{
    if !(p < 0 || query.len() == 0 || p + query.len() > source.len()) {
        if is_char_boundary(source, p) && bytes_match_at(source, query, p, false) {
            if k > 0 {
                lemma_exact_match_bounds(source, query, p + query.len(), k - 1);
            }
        } else {
            lemma_exact_match_bounds(source, query, p + 1, k);
        }
    }
}

proof fn lemma_boundary_match_bounds(source: Seq<u8>, p: int, k: int)
    requires
        0 <= k < boundary_matches_from(source, p).len(),
    ensures
        is_char_boundary(source, boundary_matches_from(source, p)[k].0),
        boundary_matches_from(source, p)[k].1 == boundary_matches_from(source, p)[k].0,
    decreases source.len() + 1 - p,
{
    if !(p < 0 || p > source.len()) {
        let head: Seq<(int, int)> = if is_char_boundary(source, p) {
            seq![(p, p)]
        } else {
            Seq::empty()
        };
        assert(boundary_matches_from(source, p) == head + boundary_matches_from(source, p + 1));
        if k >= head.len() {
            lemma_boundary_match_bounds(source, p + 1, k - head.len());
        }
    }
}

proof fn lemma_exact_matches_ordered(source: Seq<u8>, query: Seq<u8>, p: int)
    ensures
        forall|k: int|
            0 <= k < exact_matches_from(source, query, p).len() ==> p <= (
            #[trigger] exact_matches_from(source, query, p)[k]).0,
        forall|i: int, j: int|
            0 <= i < j < exact_matches_from(source, query, p).len() ==> (
            #[trigger] exact_matches_from(source, query, p)[i]).1 <= (
            #[trigger] exact_matches_from(source, query, p)[j]).0,
    decreases source.len() + 1 - p,
{
    if !(p < 0 || query.len() == 0 || p + query.len() > source.len()) {
        if is_char_boundary(source, p) && bytes_match_at(source, query, p, false) {
            let rest = exact_matches_from(source, query, p + query.len());
            let all = exact_matches_from(source, query, p);
            lemma_exact_matches_ordered(source, query, p + query.len());
            assert(all == seq![(p, p + query.len())] + rest);
            assert forall|k: int| 0 <= k < all.len() implies p <= (#[trigger] all[k]).0 by {
                if k > 0 {
                    assert(all[k] == rest[k - 1]);
                }
            }
            assert forall|i: int, j: int| 0 <= i < j < all.len() implies (#[trigger] all[i]).1 <= (
            #[trigger] all[j]).0 by {
                assert(all[j] == rest[j - 1]);
                if i > 0 {
                    assert(all[i] == rest[i - 1]);
                }
            }
        } else {
            lemma_exact_matches_ordered(source, query, p + 1);
            let all = exact_matches_from(source, query, p);
            let next = exact_matches_from(source, query, p + 1);
            assert(all == next);
            assert forall|k: int| 0 <= k < all.len() implies p <= (#[trigger] all[k]).0 by {
                assert(p + 1 <= next[k].0);
            }
            assert forall|i: int, j: int| 0 <= i < j < all.len() implies (#[trigger] all[i]).1 <= (
            #[trigger] all[j]).0 by {
                assert(next[i].1 <= next[j].0);
            }
        }
    }
}

/// Every literal match starts and ends on a character position of the
/// source, and ends no earlier than it starts.
pub proof fn lemma_literal_match_positions(source: Seq<char>, query: Seq<char>, case_sensitive: bool, k: int)
    requires
        0 <= k < literal_matches(source, query, case_sensitive).len(),
    ensures
        ({
            let m = literal_matches(source, query, case_sensitive)[k];
            &&& 0 <= m.0 <= m.1
            &&& m.1 == m.0 + encode_utf8(query).len()
            &&& exists|ks: int, ke: int|
                0 <= ks <= ke <= source.len() && m.0 == byte_offset(source, ks) && m.1 == byte_offset(
                    source,
                    ke,
                )
        }),
{
    let sb = encode_utf8(source);
    let qb = encode_utf8(query);
    let m = literal_matches(source, query, case_sensitive)[k];
    vstd::utf8::encode_utf8_valid_utf8(source);
    if !case_sensitive {
        lemma_folded_match_bounds(sb, qb, 0, k);
    } else if qb.len() == 0 {
        lemma_boundary_match_bounds(sb, 0, k);
        assert(m.1 == m.0 + qb.len());
    } else {
        lemma_exact_match_bounds(sb, qb, 0, k);
        assert forall|j: int| 0 <= j < qb.len() implies sb[m.0 + j] == #[trigger] qb[j] by {
        }
        crate::encoding::lemma_encoded_match_ends_on_boundary(sb, query, m.0);
    }
    assert(0 <= m.0) by {
        if m.0 < 0 {
            assert(!is_char_boundary(sb, m.0));
        }
    }
    crate::encoding::lemma_boundary_is_offset(source, m.0);
    crate::encoding::lemma_boundary_is_offset(source, m.1);
    let ks = choose|ks: int| 0 <= ks <= source.len() && m.0 == byte_offset(source, ks);
    let ke = choose|ke: int| 0 <= ke <= source.len() && m.1 == byte_offset(source, ke);
    if ke < ks {
        crate::encoding::lemma_byte_offset_strict(source, ke, ks);
    }
    assert(0 <= ks <= ke <= source.len() && m.0 == byte_offset(source, ks) && m.1 == byte_offset(
        source,
        ke,
    ));
}

fn bytes_match_at_exec(source: &[u8], query: &[u8], p: usize, fold_case: bool) -> (r: bool)
    requires
        p + query@.len() <= source@.len(),
    ensures
        r == bytes_match_at(source@, query@, p as int, fold_case),
{
    let mut j: usize = 0;
    while j < query.len()
        invariant
            j <= query@.len(),
            p + query@.len() <= source@.len(),
            forall|t: int|
                0 <= t < j ==> if fold_case {
                    ascii_lower_byte(#[trigger] source@[p + t]) == ascii_lower_byte(query@[t])
                } else {
                    source@[p + t] == query@[t]
                },
        decreases query.len() - j,
    {
        assert(source@.len() == source.len());
        let a = source[p + j];
        let b = query[j];
        let equal = if fold_case {
            let la: u8 = if 0x41 <= a && a <= 0x5A {
                a + 32
            } else {
                a
            };
            let lb: u8 = if 0x41 <= b && b <= 0x5A {
                b + 32
            } else {
                b
            };
            la == lb
        } else {
            a == b
        };
        if !equal {
            return false;
        }
        j = j + 1;
    }
    true
}

/// Literal matches of `query` in `source` as byte ranges: left-to-right,
/// non-overlapping exact matches when `case_sensitive`, otherwise every
/// character position whose text equals the query up to ASCII case.
pub fn literal_match_ranges(source: &str, query: &str, case_sensitive: bool) -> (r: Vec<
    (usize, usize),
>)
    ensures
        r@.len() == literal_matches(source@, query@, case_sensitive).len(),
        forall|k: int|
            0 <= k < r@.len() ==> (#[trigger] r@[k]).0 == literal_matches(
                source@,
                query@,
                case_sensitive,
            )[k].0 && r@[k].1 == literal_matches(source@, query@, case_sensitive)[k].1,
{
    let sb = source.as_bytes();
    let qb = query.as_bytes();
    let ghost s = sb@;
    let ghost q = qb@;
    let n = sb.len();
    let mut out: Vec<(usize, usize)> = Vec::new();
    if !case_sensitive {
        let mut p: usize = 0;
        while p < n
            invariant
                p <= n,
                n == s.len(),
                sb@ == s,
                qb@ == q,
                s == encode_utf8(source@),
                folded_matches_from(s, q, 0) == pairs_view(out@) + folded_matches_from(s, q, p as int),
            decreases n - p,
        {
            let ghost before = out@;
            let matched = if source.is_char_boundary(p) && qb.len() <= n - p {
                let end = p + qb.len();
                bytes_match_at_exec(sb, qb, p, true) && source.is_char_boundary(end)
            } else {
                false
            };
            if matched {
                out.push((p, p + qb.len()));
            }
            proof {
                assert(pairs_view(out@) + folded_matches_from(s, q, p + 1) =~= pairs_view(before)
                    + folded_matches_from(s, q, p as int));
            }
            p = p + 1;
        }
        assert(folded_matches_from(s, q, p as int) =~= Seq::<(int, int)>::empty());
        assert(pairs_view(out@) + Seq::<(int, int)>::empty() =~= pairs_view(out@));
    } else if qb.len() == 0 {
        let mut p: usize = 0;
        loop
            invariant_except_break
                p <= n,
                n == s.len(),
                s == encode_utf8(source@),
                q.len() == 0,
                boundary_matches_from(s, 0) == pairs_view(out@) + boundary_matches_from(s, p as int),
            ensures
                boundary_matches_from(s, 0) == pairs_view(out@),
            decreases n - p,
        {
            let ghost before = out@;
            if source.is_char_boundary(p) {
                out.push((p, p));
            }
            proof {
                assert(pairs_view(out@) + boundary_matches_from(s, p + 1) =~= pairs_view(before)
                    + boundary_matches_from(s, p as int));
            }
            if p == n {
                assert(boundary_matches_from(s, p + 1) =~= Seq::<(int, int)>::empty());
                assert(pairs_view(out@) + Seq::<(int, int)>::empty() =~= pairs_view(out@));
                break;
            }
            p = p + 1;
        }
    } else {
        let mut p: usize = 0;
        while p <= n && qb.len() <= n - p
            invariant
                n == s.len(),
                sb@ == s,
                qb@ == q,
                q.len() > 0,
                s == encode_utf8(source@),
                p <= n + 1,
                exact_matches_from(s, q, 0) == pairs_view(out@) + exact_matches_from(s, q, p as int),
            decreases n + 1 - p,
        {
            let ghost before = out@;
            if source.is_char_boundary(p) && bytes_match_at_exec(sb, qb, p, false) {
                out.push((p, p + qb.len()));
                proof {
                    assert(pairs_view(out@) + exact_matches_from(s, q, p + q.len()) =~= pairs_view(
                        before,
                    ) + exact_matches_from(s, q, p as int));
                }
                p = p + qb.len();
            } else {
                p = p + 1;
            }
        }
        assert(exact_matches_from(s, q, p as int) =~= Seq::<(int, int)>::empty());
        assert(pairs_view(out@) + Seq::<(int, int)>::empty() =~= pairs_view(out@));
    }
    proof {
        let lm = literal_matches(source@, query@, case_sensitive);
        assert(pairs_view(out@) =~= lm);
    }
    out
}

/// Byte ranges as integer pairs.
pub open spec fn pairs_view(v: Seq<(usize, usize)>) -> Seq<(int, int)> {
    Seq::new(v.len(), |i: int| (v[i].0 as int, v[i].1 as int))
}

} // verus!

verus! {

/// The line containing characters `ks..ke`: from just after the last line
/// feed before `ks` to the first line feed at or after `ke`.
pub open spec fn context_line(s: Seq<char>, ks: int, ke: int) -> Seq<char> {
    let line_start = match last_index_of(s.take(ks), '\n') {
        Some(i) => i + 1,
        None => 0,
    };
    let line_end = match first_index_of(s.skip(ke), '\n') {
        Some(i) => ke + i,
        None => s.len() as int,
    };
    s.subrange(line_start, line_end)
}

/// A line's words joined by single spaces; beyond 160 characters, the first
/// 157 followed by an ellipsis.
pub open spec fn compact_context(line: Seq<char>) -> Seq<char> {
    let compact = join_with(whitespace_words(line), ' ');
    if compact.len() <= 160 {
        compact
    } else {
        compact.take(157).push('\u{2026}')
    }
}

/// The one-line preview shown beside a replacement match at bytes
/// `start..end`.
pub fn replacement_context(source: &str, start: usize, end: usize) -> (r: String)
    requires
        exists|ks: int, ke: int|
            0 <= ks <= ke <= source@.len() && start == byte_offset(source@, ks) && end
                == byte_offset(source@, ke),
    ensures
        forall|ks: int, ke: int|
            0 <= ks <= ke <= source@.len() && start == #[trigger] byte_offset(source@, ks) && end
                == #[trigger] byte_offset(source@, ke) ==> r@ == compact_context(
                context_line(source@, ks, ke),
            ),
{
    let chars = chars_of(source);
    let offsets = char_byte_offsets(&chars, str_byte_len(source));
    let ghost pair = choose|ks: int, ke: int|
        0 <= ks <= ke <= source@.len() && start == byte_offset(source@, ks) && end == byte_offset(
            source@,
            ke,
        );
    let ks = find_offset(&offsets, start, Ghost(source@));
    let ke = find_offset(&offsets, end, Ghost(source@));
    assert(ks == pair.0 && ke == pair.1);
    let before = slice_chars(&chars, 0, ks);
    assert(before@ =~= source@.take(ks as int));
    let line_start = match rfind_char(&before, '\n') {
        Some(i) => i + 1,
        None => 0,
    };
    let after = slice_chars(&chars, ke, chars.len());
    assert(after@ =~= source@.skip(ke as int));
    let line_end = match find_char(&after, '\n') {
        Some(i) => ke + i,
        None => chars.len(),
    };
    let line = slice_chars(&chars, line_start, line_end);
    let words = split_whitespace_chars(&line);
    assert(words@.map_values(|p: Vec<char>| p@) =~= whitespace_words(line@));
    let compact = join_chars(&words, ' ');
    if compact.len() <= 160 {
        string_from_chars(&compact)
    } else {
        let mut shortened = slice_chars(&compact, 0, 157);
        shortened.push('\u{2026}');
        assert(shortened@ =~= compact@.take(157).push('\u{2026}'));
        string_from_chars(&shortened)
    }
}

} // verus!

verus! {

/// The usual order on positions.
pub open spec fn position_leq() -> spec_fn(usize, usize) -> bool {
    |a: usize, b: usize| a <= b
}

/// The end of the run of consecutive positions that index `start` of `s`
/// begins, scanning from index `j`: the first index at or after `j` whose
/// position is not `s[start]` plus its distance from `start`.
pub open spec fn run_extent(s: Seq<usize>, start: int, j: int) -> int
    decreases s.len() - j,
{
    if j < s.len() && s[j] == s[start] + (j - start) {
        run_extent(s, start, j + 1)
    } else {
        j
    }
}

/// A run ends no earlier than where its scan starts and within the sequence.
pub proof fn lemma_run_extent_bounds(s: Seq<usize>, start: int, j: int)
    requires
        j <= s.len(),
    ensures
        j <= run_extent(s, start, j) <= s.len(),
    decreases s.len() - j,
{
    if j < s.len() && s[j] == s[start] + (j - start) {
        lemma_run_extent_bounds(s, start, j + 1);
    }
}

/// The `Data` deltas for the positions `s[i..]`: one delta for each maximal
/// run of consecutive positions, in order.
pub open spec fn position_runs(s: Seq<usize>, i: int) -> Seq<OutlineDelta>
    decreases s.len() - i,
{
    if i < 0 || i >= s.len() {
        Seq::empty()
    } else {
        let e = run_extent(s, i, i + 1);
        proof {
            lemma_run_extent_bounds(s, i, i + 1);
        }
        seq![OutlineDelta::Data { first: s[i], count: (e - i) as usize }] + position_runs(s, e)
    }
}

/// `v` sorted in increasing order.
pub fn sort_positions(v: &Vec<usize>) -> (r: Vec<usize>)
    ensures
        r@ == v@.sort_by(position_leq()),
{
    broadcast use vstd::seq_lib::group_to_multiset_ensures;

    let ghost leq = position_leq();
    let mut out: Vec<usize> = Vec::new();
    let mut i: usize = 0;
    while i < v.len()
        invariant
            i <= v@.len(),
            leq == position_leq(),
            vstd::relations::sorted_by(out@, leq),
            out@.to_multiset() == v@.take(i as int).to_multiset(),
        decreases v.len() - i,
    {
        let x = v[i];
        let mut p: usize = 0;
        while p < out.len() && out[p] <= x
            invariant
                p <= out@.len(),
                forall|k: int| 0 <= k < p ==> out@[k] <= x,
            decreases out.len() - p,
        {
            p = p + 1;
        }
        let ghost before = out@;
        proof {
            vstd::seq_lib::to_multiset_insert(before, p as int, x);
            assert(v@.take(i + 1) =~= v@.take(i as int).push(x));
            vstd::seq_lib::to_multiset_build(v@.take(i as int), x);
        }
        out.insert(p, x);
        assert(out@ == before.insert(p as int, x));
        assert(v@.take(i + 1).to_multiset() == v@.take(i as int).to_multiset().insert(x));
        assert(out@.to_multiset() == v@.take(i + 1).to_multiset());
        assert forall|a: int, b: int| 0 <= a < b < out@.len() implies #[trigger] leq(out@[a], out@[b]) by {
            if b < p {
                assert(leq(before[a], before[b]));
            } else if b == p {
            } else if a < p {
                assert(leq(before[p as int], before[b - 1]));
            } else if a == p {
                assert(leq(before[p as int], before[b - 1]));
            } else {
                assert(leq(before[a - 1], before[b - 1]));
            }
        }
        i = i + 1;
    }
    proof {
        assert(v@.take(v@.len() as int) =~= v@);
        v@.lemma_sort_by_ensures(leq);
        vstd::seq_lib::lemma_sorted_unique(out@, v@.sort_by(leq), leq);
    }
    out
}

fn continues_run(first: usize, count: usize, next: usize) -> (b: bool)
    ensures
        b == (next == first + count),
{
    match first.checked_add(count) {
        Some(expected) => next == expected,
        None => false,
    }
}

/// The `Data` deltas for rows whose contents changed: the positions are
/// sorted, and each maximal run of consecutive positions becomes one delta.
pub fn data_deltas(changed_rows: &Vec<usize>) -> (r: Vec<OutlineDelta>)
    ensures
        r@ == position_runs(changed_rows@.sort_by(position_leq()), 0),
{
    let sorted = sort_positions(changed_rows);
    let ghost s = sorted@;
    let mut deltas: Vec<OutlineDelta> = Vec::new();
    let mut i: usize = 0;
    assert(position_runs(s, 0) == deltas@ + position_runs(s, 0));
    while i < sorted.len()
        invariant
            i <= s.len(),
            s == sorted@,
            position_runs(s, 0) == deltas@ + position_runs(s, i as int),
        decreases sorted.len() - i,
    {
        let first = sorted[i];
        let mut count: usize = 1;
        let mut j: usize = i + 1;
        proof {
            lemma_run_extent_bounds(s, i as int, i + 1);
        }
        while j < sorted.len() && continues_run(first, count, sorted[j])
            invariant
                i < j <= s.len(),
                count == j - i,
                first == s[i as int],
                s == sorted@,
                run_extent(s, i as int, i + 1) == run_extent(s, i as int, j as int),
            decreases sorted.len() - j,
        {
            j = j + 1;
            count = count + 1;
        }
        proof {
            lemma_run_extent_bounds(s, i as int, j as int);
            assert(run_extent(s, i as int, j as int) == j);
        }
        let ghost rest = position_runs(s, j as int);
        deltas.push(OutlineDelta::Data { first, count });
        proof {
            assert(position_runs(s, i as int) == seq![
                OutlineDelta::Data { first: s[i as int], count: (j - i) as usize },
            ] + rest);
            assert(deltas@ + rest =~= deltas@.drop_last() + position_runs(s, i as int));
        }
        i = j;
    }
    deltas
}

} // verus!

verus! {

/// One document searched by a project-wide replacement: its outline node,
/// its title, and its canonical body.
#[derive(Clone, Debug, Eq, PartialEq)]
pub struct ReplaceSource {
    pub node: u128,
    pub title: String,
    pub body: String,
}

/// One independently selectable literal match in a project replacement
/// preview, as a byte range of its document's body.
#[derive(Clone, Debug, Eq, PartialEq)]
pub struct ProjectReplaceMatch {
    pub node: u128,
    pub title: String,
    pub start: usize,
    pub end: usize,
    pub context: String,
    pub selected: bool,
}

/// A bounded, literal project-wide replacement preview: every match with its
/// context, and the fingerprint of each document that has a match.
/// Callers may only change which matches are selected.
#[derive(Clone, Debug, Eq, PartialEq)]
pub struct ProjectReplacePreview {
    query: String,
    replacement: String,
    matches: Vec<ProjectReplaceMatch>,
    fingerprints: Vec<(u128, crate::document::ContentFingerprint)>,
}

impl ProjectReplacePreview {
    pub closed spec fn query_of(&self) -> Seq<char> {
        self.query@
    }

    pub closed spec fn replacement_of(&self) -> Seq<char> {
        self.replacement@
    }

    pub closed spec fn matches_of(&self) -> Seq<ProjectReplaceMatch> {
        self.matches@
    }

    pub closed spec fn fingerprints_of(&self) -> Seq<(u128, crate::document::ContentFingerprint)> {
        self.fingerprints@
    }

    /// Every match is a range of the query's length in bytes, and no
    /// document has two fingerprints.
    pub open spec fn wf(&self) -> bool {
        &&& forall|i: int|
            0 <= i < self.matches_of().len() ==> (#[trigger] self.matches_of()[i]).start
                <= self.matches_of()[i].end && self.matches_of()[i].end - self.matches_of()[i].start
                == encode_utf8(self.query_of()).len()
        &&& forall|a: int, b: int|
            0 <= a < b < self.fingerprints_of().len() ==> (#[trigger] self.fingerprints_of()[a]).0
                != (#[trigger] self.fingerprints_of()[b]).0
    }

    /// The proposed matches, in document order.
    pub fn matches(&self) -> (m: &[ProjectReplaceMatch])
        ensures
            m@ == self.matches_of(),
    {
        self.matches.as_slice()
    }

    /// How many matches are selected.
    pub fn selected_count(&self) -> (n: usize)
        ensures
            n == self.matches_of().filter(|m: ProjectReplaceMatch| m.selected).len(),
    {
        let ghost pred = |m: ProjectReplaceMatch| m.selected;
        let mut n: usize = 0;
        let mut i: usize = 0;
        while i < self.matches.len()
            invariant
                i <= self.matches@.len(),
                pred == (|m: ProjectReplaceMatch| m.selected),
                n == self.matches@.take(i as int).filter(pred).len(),
                n <= i,
            decreases self.matches.len() - i,
        {
            reveal_with_fuel(Seq::filter, 1);
            assert(self.matches@.take(i + 1).drop_last() =~= self.matches@.take(i as int));
            if self.matches[i].selected {
                n = n + 1;
            }
            i = i + 1;
        }
        assert(self.matches@.take(i as int) =~= self.matches@);
        n
    }

    /// Selects or deselects match `index`; `false` when there is no such
    /// match.
    pub fn set_selected(&mut self, index: usize, selected: bool) -> (done: bool)
        ensures
            done == (index < old(self).matches_of().len()),
            done ==> final(self).matches_of() == old(self).matches_of().update(
                index as int,
                ProjectReplaceMatch { selected, ..old(self).matches_of()[index as int] },
            ),
            !done ==> final(self).matches_of() == old(self).matches_of(),
            final(self).query_of() == old(self).query_of(),
            final(self).replacement_of() == old(self).replacement_of(),
            final(self).fingerprints_of() == old(self).fingerprints_of(),
            final(self).wf() == old(self).wf(),
    {
        if index >= self.matches.len() {
            return false;
        }
        let current = &self.matches[index];
        let item = ProjectReplaceMatch {
            node: current.node,
            title: current.title.clone(),
            start: current.start,
            end: current.end,
            context: current.context.clone(),
            selected,
        };
        let ghost before = self.matches@;
        self.matches.set(index, item);
        assert forall|i: int| 0 <= i < self.matches@.len() implies (#[trigger] self.matches@[i]).start
            == before[i].start && self.matches@[i].end == before[i].end by {}
        assert(self.wf() == old(self).wf()) by {
            assert(self.fingerprints_of() == old(self).fingerprints_of());
            if old(self).wf() {
                assert forall|i: int| 0 <= i < self.matches_of().len() implies (
                #[trigger] self.matches_of()[i]).start <= self.matches_of()[i].end
                    && self.matches_of()[i].end - self.matches_of()[i].start == encode_utf8(
                    self.query_of(),
                ).len() by {
                    assert(old(self).matches_of()[i] == before[i]);
                }
            }
            if self.wf() {
                assert forall|i: int| 0 <= i < old(self).matches_of().len() implies (
                #[trigger] old(self).matches_of()[i]).start <= old(self).matches_of()[i].end
                    && old(self).matches_of()[i].end - old(self).matches_of()[i].start == encode_utf8(
                    old(self).query_of(),
                ).len() by {
                    assert(self.matches_of()[i].start == before[i].start);
                }
            }
        }
        true
    }
}

/// The most matches one preview may hold.
pub const REPLACE_PREVIEW_LIMIT: usize = 10_000;

/// Why a replacement request is refused before any document is searched.
pub open spec fn replace_request_refusal(query: Seq<char>, replacement: Seq<char>, case_sensitive: bool) -> Option<
    Seq<char>,
> {
    if query.len() == 0 {
        Some("replacement query cannot be empty"@)
    } else if encode_utf8(query).len() > 4096 || encode_utf8(replacement).len() > 1024 * 1024 {
        Some("replacement query or value exceeds its safety limit"@)
    } else if !case_sensitive && !vstd::utf8::is_ascii_chars(query) {
        Some(
            "case-insensitive project replacement currently requires an ASCII query; use case-sensitive matching for Unicode text"@,
        )
    } else {
        None
    }
}

/// The refusal of a preview that would hold more than the limit.
pub open spec fn too_many_matches_message() -> Seq<char> {
    "replacement preview exceeds 10,000 changes; narrow the query"@
}

/// The character position whose byte offset is `b`.
pub open spec fn char_position(s: Seq<char>, b: int) -> int {
    choose|k: int| 0 <= k <= s.len() && b == byte_offset(s, k)
}

/// The context line shown beside a match at bytes `start..end`.
pub open spec fn match_context(s: Seq<char>, start: int, end: int) -> Seq<char> {
    compact_context(context_line(s, char_position(s, start), char_position(s, end)))
}

/// The plain values of a preview match: node, title, byte range, context,
/// and selection.
pub open spec fn match_view(m: ProjectReplaceMatch) -> (u128, Seq<char>, int, int, Seq<char>, bool) {
    (m.node, m.title@, m.start as int, m.end as int, m.context@, m.selected)
}

/// The preview matches of one document, all selected.
pub open spec fn document_match_views(source: ReplaceSource, query: Seq<char>, case_sensitive: bool) -> Seq<
    (u128, Seq<char>, int, int, Seq<char>, bool),
> {
    literal_matches(source.body@, query, case_sensitive).map_values(
        |m: (int, int)| (source.node, source.title@, m.0, m.1, match_context(source.body@, m.0, m.1), true),
    )
}

/// The preview matches of all documents, document by document.
pub open spec fn preview_views(sources: Seq<ReplaceSource>, query: Seq<char>, case_sensitive: bool) -> Seq<
    (u128, Seq<char>, int, int, Seq<char>, bool),
>
    decreases sources.len(),
{
    if sources.len() == 0 {
        Seq::empty()
    } else {
        preview_views(sources.drop_last(), query, case_sensitive) + document_match_views(
            sources.last(),
            query,
            case_sensitive,
        )
    }
}

/// No two sources are the same document.
pub open spec fn distinct_sources(sources: Seq<ReplaceSource>) -> bool {
    forall|a: int, b: int|
        0 <= a < b < sources.len() ==> (#[trigger] sources[a]).node != (#[trigger] sources[b]).node
}

/// The fingerprint of every document that has a match, in document order.
pub open spec fn preview_fingerprints(sources: Seq<ReplaceSource>, query: Seq<char>, case_sensitive: bool) -> Seq<
    (u128, crate::document::ContentFingerprint),
>
    decreases sources.len(),
{
    if sources.len() == 0 {
        Seq::empty()
    } else {
        preview_fingerprints(sources.drop_last(), query, case_sensitive) + if literal_matches(
            sources.last().body@,
            query,
            case_sensitive,
        ).len() > 0 {
            seq![(sources.last().node, crate::document::fingerprint_of(sources.last().body@))]
        } else {
            Seq::empty()
        }
    }
}

proof fn lemma_char_positions(s: Seq<char>, start: int, end: int)
    requires
        exists|ks: int, ke: int|
            0 <= ks <= ke <= s.len() && start == byte_offset(s, ks) && end == byte_offset(s, ke),
    ensures
        0 <= char_position(s, start) <= char_position(s, end) <= s.len(),
        start == byte_offset(s, char_position(s, start)),
        end == byte_offset(s, char_position(s, end)),
{
    let (ks, ke) = choose|ks: int, ke: int|
        0 <= ks <= ke <= s.len() && start == byte_offset(s, ks) && end == byte_offset(s, ke);
    assert(0 <= ks <= s.len() && start == byte_offset(s, ks));
    assert(0 <= ke <= s.len() && end == byte_offset(s, ke));
    let a = char_position(s, start);
    let b = char_position(s, end);
    if b < a {
        crate::encoding::lemma_byte_offset_strict(s, b, a);
        if ke < ks {
            crate::encoding::lemma_byte_offset_strict(s, ke, ks);
        } else if ks < ke {
            crate::encoding::lemma_byte_offset_strict(s, ks, ke);
        }
    }
}

proof fn lemma_preview_views_grow(sources: Seq<ReplaceSource>, query: Seq<char>, case_sensitive: bool, i: int)
    requires
        0 <= i <= sources.len(),
    ensures
        preview_views(sources.take(i), query, case_sensitive).len() <= preview_views(
            sources,
            query,
            case_sensitive,
        ).len(),
    decreases sources.len() - i,
{
    if i < sources.len() {
        lemma_preview_views_grow(sources, query, case_sensitive, i + 1);
        assert(sources.take(i + 1).drop_last() =~= sources.take(i));
    } else {
        assert(sources.take(i) =~= sources);
    }
}

/// Builds a bounded, literal project-wide replacement preview without
/// writing: every match of `query` in every source body, each selected, with
/// its context line, and the fingerprint of each body that has a match.
pub fn preview_project_replace(
    sources: &Vec<ReplaceSource>,
    query: &str,
    replacement: &str,
    case_sensitive: bool,
) -> (r: Result<ProjectReplacePreview, String>)
    requires
        distinct_sources(sources@),
    ensures
        replace_request_refusal(query@, replacement@, case_sensitive) matches Some(m) ==> (r matches Err(e)
            && e@ == m),
        replace_request_refusal(query@, replacement@, case_sensitive) is None && preview_views(
            sources@,
            query@,
            case_sensitive,
        ).len() > REPLACE_PREVIEW_LIMIT ==> (r matches Err(e) && e@ == too_many_matches_message()),
        replace_request_refusal(query@, replacement@, case_sensitive) is None && preview_views(
            sources@,
            query@,
            case_sensitive,
        ).len() <= REPLACE_PREVIEW_LIMIT ==> (r matches Ok(p) && p.query_of() == query@
            && p.replacement_of() == replacement@ && p.matches_of().map_values(
            |m: ProjectReplaceMatch| match_view(m),
        ) == preview_views(sources@, query@, case_sensitive) && p.fingerprints_of()
            == preview_fingerprints(sources@, query@, case_sensitive) && p.wf()),
{
    proof {
        reveal_strlit("replacement query cannot be empty");
        reveal_strlit("replacement query or value exceeds its safety limit");
    }
    if query.is_empty() {
        return Err("replacement query cannot be empty".to_owned());
    }
    if str_byte_len(query) > 4096 || str_byte_len(replacement) > 1024 * 1024 {
        return Err("replacement query or value exceeds its safety limit".to_owned());
    }
    if !case_sensitive && !query.is_ascii() {
        return Err(
            "case-insensitive project replacement currently requires an ASCII query; use case-sensitive matching for Unicode text".to_owned(),
        );
    }
    let ghost all = sources@;
    let ghost q = query@;
    let mut matches: Vec<ProjectReplaceMatch> = Vec::new();
    let mut fingerprints: Vec<(u128, crate::document::ContentFingerprint)> = Vec::new();
    let mut i: usize = 0;
    assert(all.take(0) =~= Seq::<ReplaceSource>::empty());
    while i < sources.len()
        invariant
            i <= all.len(),
            all == sources@,
            q == query@,
            matches@.map_values(|m: ProjectReplaceMatch| match_view(m)) == preview_views(
                all.take(i as int),
                q,
                case_sensitive,
            ),
            fingerprints@ == preview_fingerprints(all.take(i as int), q, case_sensitive),
            distinct_sources(all),
            forall|a: int, b: int|
                0 <= a < b < fingerprints@.len() ==> (#[trigger] fingerprints@[a]).0
                    != (#[trigger] fingerprints@[b]).0,
            forall|a: int, m: int|
                0 <= a < fingerprints@.len() && i <= m < all.len() ==> (#[trigger] fingerprints@[a]).0
                    != (#[trigger] all[m]).node,
            matches@.len() <= REPLACE_PREVIEW_LIMIT,
            replace_request_refusal(query@, replacement@, case_sensitive) is None,
            forall|k: int|
                0 <= k < matches@.len() ==> (#[trigger] matches@[k]).start <= matches@[k].end
                    && matches@[k].end - matches@[k].start == encode_utf8(q).len(),
        decreases all.len() - i,
    {
        let source = &sources[i];
        let ranges = literal_match_ranges(source.body.as_str(), query, case_sensitive);
        let ghost found = literal_matches(source.body@, q, case_sensitive);
        let ghost before = preview_views(all.take(i as int), q, case_sensitive);
        let ghost views = document_match_views(all[i as int], q, case_sensitive);
        proof {
            assert(all.take(i + 1).drop_last() =~= all.take(i as int));
            assert(all.take(i + 1).last() == all[i as int]);
        }
        let ghost fingerprints0 = fingerprints@;
        if ranges.len() > 0 {
            fingerprints.push((source.node, crate::document::ContentFingerprint::of(source.body.as_str())));
        }
        proof {
            assert forall|a: int, b: int| 0 <= a < b < fingerprints@.len() implies (
            #[trigger] fingerprints@[a]).0 != (#[trigger] fingerprints@[b]).0 by {
                if b == fingerprints0.len() {
                    assert(fingerprints@[a] == fingerprints0[a]);
                    assert(fingerprints0[a].0 != all[i as int].node);
                } else {
                    assert(fingerprints@[a] == fingerprints0[a]);
                    assert(fingerprints@[b] == fingerprints0[b]);
                }
            }
            assert forall|a: int, m: int| 0 <= a < fingerprints@.len() && i + 1 <= m < all.len() implies (
            #[trigger] fingerprints@[a]).0 != (#[trigger] all[m]).node by {
                if a == fingerprints0.len() {
                    assert(all[i as int].node != all[m].node);
                } else {
                    assert(fingerprints@[a] == fingerprints0[a]);
                }
            }
        }
        let mut j: usize = 0;
        while j < ranges.len()
            invariant
                i < all.len(),
                all == sources@,
                q == query@,
                *source == all[i as int],
                ranges@.len() == found.len(),
                found == literal_matches(source.body@, q, case_sensitive),
                forall|k: int|
                    0 <= k < ranges@.len() ==> (#[trigger] ranges@[k]).0 == found[k].0 && ranges@[k].1
                        == found[k].1,
                views == document_match_views(all[i as int], q, case_sensitive),
                before == preview_views(all.take(i as int), q, case_sensitive),
                j <= ranges@.len(),
                matches@.map_values(|m: ProjectReplaceMatch| match_view(m)) == before + views.take(
                    j as int,
                ),
                matches@.len() <= REPLACE_PREVIEW_LIMIT,
                replace_request_refusal(query@, replacement@, case_sensitive) is None,
                forall|k: int|
                    0 <= k < matches@.len() ==> (#[trigger] matches@[k]).start <= matches@[k].end
                        && matches@[k].end - matches@[k].start == encode_utf8(q).len(),
            decreases ranges.len() - j,
        {
            if matches.len() >= REPLACE_PREVIEW_LIMIT {
                proof {
                    reveal_strlit("replacement preview exceeds 10,000 changes; narrow the query");
                    assert(all.take(i + 1).drop_last() =~= all.take(i as int));
                    assert(all.take(i + 1).last() == all[i as int]);
                    assert(preview_views(all.take(i + 1), q, case_sensitive) == before + views);
                    lemma_preview_views_grow(all, q, case_sensitive, i + 1);
                    assert(matches@.map_values(|m: ProjectReplaceMatch| match_view(m)).len()
                        == matches@.len());
                }
                return Err("replacement preview exceeds 10,000 changes; narrow the query".to_owned());
            }
            let (start, end) = ranges[j];
            proof {
                lemma_literal_match_positions(source.body@, q, case_sensitive, j as int);
                lemma_char_positions(source.body@, start as int, end as int);
            }
            let context = replacement_context(source.body.as_str(), start, end);
            assert(context@ == match_context(source.body@, start as int, end as int));
            let item = ProjectReplaceMatch {
                node: source.node,
                title: source.title.clone(),
                start,
                end,
                context,
                selected: true,
            };
            let ghost old_views = matches@.map_values(|m: ProjectReplaceMatch| match_view(m));
            matches.push(item);
            proof {
                assert(views[j as int] == match_view(item));
                assert(matches@.map_values(|m: ProjectReplaceMatch| match_view(m)) =~= old_views.push(
                    match_view(item),
                ));
                assert(views.take(j + 1) =~= views.take(j as int).push(views[j as int]));
            }
            j = j + 1;
        }
        proof {
            assert(views.take(j as int) =~= views);
        }
        i = i + 1;
    }
    assert(all.take(i as int) =~= all);
    Ok(
        ProjectReplacePreview {
            query: query.to_owned(),
            replacement: replacement.to_owned(),
            matches,
            fingerprints,
        },
    )
}

} // verus!

verus! {

/// A project replacement refused because the document of `node` no longer
/// holds what the preview showed.
#[derive(Clone, Copy, Debug, Eq, PartialEq)]
pub struct ReplaceConflict {
    pub node: u128,
}

/// Byte ranges in descending order: later starts first.
pub open spec fn range_desc() -> spec_fn((int, int), (int, int)) -> bool {
    |a: (int, int), b: (int, int)| a.0 > b.0 || (a.0 == b.0 && a.1 >= b.1)
}

/// The selected byte ranges of `node` in preview order.
pub open spec fn selected_ranges(matches: Seq<ProjectReplaceMatch>, node: u128) -> Seq<(int, int)>
    decreases matches.len(),
{
    if matches.len() == 0 {
        Seq::empty()
    } else {
        selected_ranges(matches.drop_last(), node) + if matches.last().node == node
            && matches.last().selected {
            seq![(matches.last().start as int, matches.last().end as int)]
        } else {
            Seq::empty()
        }
    }
}

/// The fingerprint a preview recorded for `node`, if any.
pub open spec fn recorded_fingerprint(
    fingerprints: Seq<(u128, crate::document::ContentFingerprint)>,
    node: u128,
) -> Option<crate::document::ContentFingerprint>
    decreases fingerprints.len(),
{
    if fingerprints.len() == 0 {
        None
    } else if fingerprints[0].0 == node {
        Some(fingerprints[0].1)
    } else {
        recorded_fingerprint(fingerprints.drop_first(), node)
    }
}

/// Range `r` of `out` lies on character boundaries and holds the query up to
/// ASCII case.
pub open spec fn range_holds_query(out: Seq<u8>, r: (int, int), query: Seq<u8>) -> bool {
    &&& 0 <= r.0 <= r.1 <= out.len()
    &&& is_char_boundary(out, r.0)
    &&& is_char_boundary(out, r.1)
    &&& r.1 - r.0 == query.len()
    &&& bytes_match_at(out, query, r.0, true)
}

/// Replaces the ranges one after the other, each checked against the text
/// that the earlier replacements left; `None` at the first range that no
/// longer holds the query.
pub open spec fn replace_ranges(out: Seq<u8>, ranges: Seq<(int, int)>, query: Seq<u8>, replacement: Seq<u8>) -> Option<
    Seq<u8>,
>
    decreases ranges.len(),
{
    if ranges.len() == 0 {
        Some(out)
    } else if range_holds_query(out, ranges[0], query) {
        replace_ranges(
            out.subrange(0, ranges[0].0) + replacement + out.subrange(ranges[0].1, out.len() as int),
            ranges.drop_first(),
            query,
            replacement,
        )
    } else {
        None
    }
}

proof fn lemma_range_desc_total()
    ensures
        vstd::relations::total_ordering(range_desc()),
{
}

fn sort_ranges_desc(v: &Vec<(usize, usize)>, Ghost(target): Ghost<Seq<(int, int)>>) -> (r: Vec<
    (usize, usize),
>)
    requires
        v@.len() == target.len(),
        forall|k: int| 0 <= k < v@.len() ==> (#[trigger] v@[k]).0 == target[k].0 && v@[k].1 == target[k].1,
    ensures
        r@.len() == target.len(),
        r@.len() == target.sort_by(range_desc()).len(),
        forall|k: int|
            0 <= k < r@.len() ==> (#[trigger] r@[k]).0 == target.sort_by(range_desc())[k].0 && r@[k].1
                == target.sort_by(range_desc())[k].1,
{
    broadcast use vstd::seq_lib::group_to_multiset_ensures;

    let ghost leq = range_desc();
    let ghost widen = |p: (usize, usize)| (p.0 as int, p.1 as int);
    let mut out: Vec<(usize, usize)> = Vec::new();
    let mut i: usize = 0;
    assert(v@.map_values(widen) =~= target);
    while i < v.len()
        invariant
            i <= v@.len(),
            leq == range_desc(),
            widen == (|p: (usize, usize)| (p.0 as int, p.1 as int)),
            vstd::relations::sorted_by(out@.map_values(widen), leq),
            out@.map_values(widen).to_multiset() == v@.map_values(widen).take(i as int).to_multiset(),
        decreases v.len() - i,
    {
        let x = v[i];
        let mut p: usize = 0;
        while p < out.len() && (out[p].0 > x.0 || (out[p].0 == x.0 && out[p].1 >= x.1))
            invariant
                p <= out@.len(),
                leq == range_desc(),
                widen == (|p: (usize, usize)| (p.0 as int, p.1 as int)),
                forall|k: int| 0 <= k < p ==> leq(widen(out@[k]), widen(x)),
            decreases out.len() - p,
        {
            p = p + 1;
        }
        let ghost before = out@.map_values(widen);
        proof {
            vstd::seq_lib::to_multiset_insert(before, p as int, widen(x));
            assert(v@.map_values(widen).take(i + 1) =~= v@.map_values(widen).take(i as int).push(
                widen(x),
            ));
            vstd::seq_lib::to_multiset_build(v@.map_values(widen).take(i as int), widen(x));
        }
        out.insert(p, x);
        assert(out@.map_values(widen) =~= before.insert(p as int, widen(x)));
        assert forall|a: int, b: int| 0 <= a < b < out@.len() implies #[trigger] leq(
            out@.map_values(widen)[a],
            out@.map_values(widen)[b],
        ) by {
            let w = out@.map_values(widen);
            if b < p {
                assert(leq(before[a], before[b]));
            } else if b == p {
            } else if a < p {
                assert(leq(before[a], before[b - 1]) || a == b - 1);
                if p < before.len() {
                    assert(!leq(widen(out@[p as int]), widen(x)) || true);
                }
                assert(leq(before[p as int], before[b - 1]) || p as int == b - 1);
            } else if a == p {
                assert(leq(before[p as int], before[b - 1]) || p as int == b - 1);
            } else {
                assert(leq(before[a - 1], before[b - 1]));
            }
        }
        i = i + 1;
    }
    proof {
        assert(v@.map_values(widen).take(v@.len() as int) =~= v@.map_values(widen));
        lemma_range_desc_total();
        target.lemma_sort_by_ensures(leq);
        vstd::seq_lib::lemma_sorted_unique(out@.map_values(widen), target.sort_by(leq), leq);
        assert(out@.map_values(widen).len() == out@.len());
        assert(out@.map_values(widen).to_multiset().len() == target.to_multiset().len());
        assert(out@.len() == target.len());
        assert forall|k: int| 0 <= k < out@.len() implies (#[trigger] out@[k]).0 == target.sort_by(
            range_desc(),
        )[k].0 && out@[k].1 == target.sort_by(range_desc())[k].1 by {
            assert(out@.map_values(widen)[k] == widen(out@[k]));
        }
    }
    out
}

} // verus!

verus! {

fn is_boundary(out: &Vec<u8>, i: usize) -> (b: bool)
    requires
        valid_utf8(out@),
        i <= out@.len(),
    ensures
        b == is_char_boundary(out@, i as int),
{
    proof {
        vstd::utf8::is_char_boundary_start_end_of_seq(out@);
    }
    if i == out.len() {
        true
    } else {
        proof {
            vstd::utf8::is_char_boundary_iff_not_is_continuation_byte(out@, i as int);
        }
        let b = out[i];
        !(0x80 <= b && b <= 0xbf)
    }
}

fn splice_bytes(out: &Vec<u8>, start: usize, end: usize, replacement: &[u8]) -> (r: Vec<u8>)
    requires
        start <= end <= out@.len(),
    ensures
        r@ == out@.subrange(0, start as int) + replacement@ + out@.subrange(end as int, out@.len() as int),
{
    let mut r: Vec<u8> = Vec::new();
    let mut i: usize = 0;
    while i < start
        invariant
            i <= start <= end <= out@.len(),
            r@ == out@.subrange(0, i as int),
        decreases start - i,
    {
        r.push(out[i]);
        i = i + 1;
        assert(r@ =~= out@.subrange(0, i as int));
    }
    let mut j: usize = 0;
    while j < replacement.len()
        invariant
            start <= end <= out@.len(),
            j <= replacement@.len(),
            r@ == out@.subrange(0, start as int) + replacement@.take(j as int),
        decreases replacement.len() - j,
    {
        r.push(replacement[j]);
        j = j + 1;
        assert(r@ =~= out@.subrange(0, start as int) + replacement@.take(j as int));
    }
    assert(replacement@.take(j as int) =~= replacement@);
    let mut k: usize = end;
    while k < out.len()
        invariant
            start <= end <= k <= out@.len(),
            r@ == out@.subrange(0, start as int) + replacement@ + out@.subrange(end as int, k as int),
        decreases out.len() - k,
    {
        r.push(out[k]);
        k = k + 1;
        assert(r@ =~= out@.subrange(0, start as int) + replacement@ + out@.subrange(end as int, k as int));
    }
    r
}

fn selected_ranges_of(matches: &Vec<ProjectReplaceMatch>, node: u128) -> (ranges: Vec<(usize, usize)>)
    ensures
        ranges@.len() == selected_ranges(matches@, node).len(),
        forall|k: int|
            0 <= k < ranges@.len() ==> (#[trigger] ranges@[k]).0 == selected_ranges(matches@, node)[k].0
                && ranges@[k].1 == selected_ranges(matches@, node)[k].1,
{
    let ghost ms = matches@;
    let mut ranges: Vec<(usize, usize)> = Vec::new();
    let mut i: usize = 0;
    while i < matches.len()
        invariant
            i <= ms.len(),
            ms == matches@,
            ranges@.len() == selected_ranges(ms.take(i as int), node).len(),
            forall|k: int|
                0 <= k < ranges@.len() ==> (#[trigger] ranges@[k]).0 == selected_ranges(
                    ms.take(i as int),
                    node,
                )[k].0 && ranges@[k].1 == selected_ranges(ms.take(i as int), node)[k].1,
        decreases matches.len() - i,
    {
        assert(ms.take(i + 1).drop_last() =~= ms.take(i as int));
        assert(ms.take(i + 1).last() == ms[i as int]);
        if matches[i].node == node && matches[i].selected {
            ranges.push((matches[i].start, matches[i].end));
        }
        i = i + 1;
    }
    assert(ms.take(i as int) =~= ms);
    ranges
}

fn recorded_fingerprint_of(
    fingerprints: &Vec<(u128, crate::document::ContentFingerprint)>,
    node: u128,
) -> (r: Option<crate::document::ContentFingerprint>)
    ensures
        r == recorded_fingerprint(fingerprints@, node),
{
    let mut f: usize = 0;
    assert(fingerprints@.skip(0) =~= fingerprints@);
    while f < fingerprints.len()
        invariant
            f <= fingerprints@.len(),
            recorded_fingerprint(fingerprints@, node) == recorded_fingerprint(
                fingerprints@.skip(f as int),
                node,
            ),
        decreases fingerprints.len() - f,
    {
        assert(fingerprints@.skip(f as int)[0] == fingerprints@[f as int]);
        if fingerprints[f].0 == node {
            return Some(fingerprints[f].1);
        }
        assert(fingerprints@.skip(f as int).drop_first() =~= fingerprints@.skip(f + 1));
        f = f + 1;
    }
    assert(fingerprints@.skip(f as int) =~= Seq::<(u128, crate::document::ContentFingerprint)>::empty());
    None
}

fn replace_ranges_in(
    source: &[u8],
    sorted: &Vec<(usize, usize)>,
    Ghost(order): Ghost<Seq<(int, int)>>,
    query: &[u8],
    replacement: &[u8],
) -> (r: Option<Vec<u8>>)
    requires
        valid_utf8(source@),
        valid_utf8(replacement@),
        sorted@.len() == order.len(),
        forall|t: int| 0 <= t < sorted@.len() ==> (#[trigger] sorted@[t]).0 == order[t].0 && sorted@[t].1 == order[t].1,
    ensures
        match replace_ranges(source@, order, query@, replacement@) {
            None => r is None,
            Some(bytes) => r matches Some(v) && v@ == bytes && valid_utf8(bytes),
        },
{
    let mut out: Vec<u8> = Vec::new();
    let mut c: usize = 0;
    while c < source.len()
        invariant
            c <= source@.len(),
            out@ == source@.take(c as int),
        decreases source.len() - c,
    {
        out.push(source[c]);
        c = c + 1;
        assert(out@ =~= source@.take(c as int));
    }
    assert(source@.take(c as int) =~= source@);
    let mut k: usize = 0;
    assert(order.skip(0) =~= order);
    while k < sorted.len()
        invariant
            k <= sorted@.len(),
            sorted@.len() == order.len(),
            forall|t: int| 0 <= t < sorted@.len() ==> (#[trigger] sorted@[t]).0 == order[t].0 && sorted@[t].1
                == order[t].1,
            valid_utf8(out@),
            valid_utf8(replacement@),
            replace_ranges(source@, order, query@, replacement@) == replace_ranges(
                out@,
                order.skip(k as int),
                query@,
                replacement@,
            ),
        decreases sorted.len() - k,
    {
        let (start, end) = sorted[k];
        let ghost rng = order[k as int];
        assert(order.skip(k as int)[0] == rng);
        assert(order.skip(k as int).drop_first() =~= order.skip(k + 1));
        let holds = start <= end && end <= out.len() && end - start == query.len() && is_boundary(&out, start)
            && is_boundary(&out, end) && bytes_match_at_exec(out.as_slice(), query, start, true);
        assert(holds == range_holds_query(out@, rng, query@));
        if !holds {
            return None;
        }
        proof {
            vstd::utf8::valid_utf8_split(out@, start as int);
            vstd::utf8::valid_utf8_split(out@, end as int);
            let prefix = out@.subrange(0, start as int);
            let suffix = out@.subrange(end as int, out@.len() as int);
            vstd::utf8::valid_utf8_concat(prefix, replacement@);
            vstd::utf8::valid_utf8_concat(prefix + replacement@, suffix);
        }
        out = splice_bytes(&out, start, end, replacement);
        k = k + 1;
    }
    assert(order.skip(k as int) =~= Seq::<(int, int)>::empty());
    Some(out)
}

impl ProjectReplacePreview {
    /// The documents with a selected match, each once, in ascending node
    /// order: the order in which a replacement visits them.
    pub fn selected_nodes(&self) -> (nodes: Vec<u128>)
        ensures
            forall|a: int, b: int| 0 <= a < b < nodes@.len() ==> nodes@[a] < nodes@[b],
            forall|n: u128|
                nodes@.contains(n) <==> exists|i: int|
                    0 <= i < self.matches_of().len() && (#[trigger] self.matches_of()[i]).selected
                        && self.matches_of()[i].node == n,
    {
        let ghost ms = self.matches@;
        let mut out: Vec<u128> = Vec::new();
        let mut i: usize = 0;
        while i < self.matches.len()
            invariant
                i <= ms.len(),
                ms == self.matches@,
                forall|a: int, b: int| 0 <= a < b < out@.len() ==> out@[a] < out@[b],
                forall|n: u128|
                    out@.contains(n) <==> exists|j: int|
                        0 <= j < i && (#[trigger] ms[j]).selected && ms[j].node == n,
            decreases self.matches.len() - i,
        {
            if self.matches[i].selected {
                let node = self.matches[i].node;
                let mut p: usize = 0;
                while p < out.len() && out[p] < node
                    invariant
                        p <= out@.len(),
                        forall|k: int| 0 <= k < p ==> out@[k] < node,
                    decreases out.len() - p,
                {
                    p = p + 1;
                }
                if p < out.len() && out[p] == node {
                    assert forall|n: u128| out@.contains(n) <==> exists|j: int|
                        0 <= j < i + 1 && (#[trigger] ms[j]).selected && ms[j].node == n by {
                        if out@.contains(n) {
                            let j = choose|j: int| 0 <= j < i && (#[trigger] ms[j]).selected && ms[j].node == n;
                            assert(0 <= j < i + 1 && ms[j].selected && ms[j].node == n);
                        }
                        if n == node {
                            assert(out@[p as int] == n);
                        }
                    }
                } else {
                    let ghost before = out@;
                    out.insert(p, node);
                    assert(out@ =~= before.insert(p as int, node));
                    assert forall|a: int, b: int| 0 <= a < b < out@.len() implies out@[a] < out@[b] by {
                        if b < p {
                        } else if b == p {
                        } else if a < p {
                            assert(before[a] < before[b - 1] || a == b - 1);
                        } else if a == p {
                            assert(before[p as int] > node || p as int == b - 1);
                            if (b - 1) > p {
                                assert(before[p as int] < before[b - 1]);
                            }
                        } else {
                            assert(before[a - 1] < before[b - 1]);
                        }
                    }
                    assert forall|n: u128| out@.contains(n) <==> exists|j: int|
                        0 <= j < i + 1 && (#[trigger] ms[j]).selected && ms[j].node == n by {
                        if out@.contains(n) {
                            let k = choose|k: int| 0 <= k < out@.len() && out@[k] == n;
                            if n == node {
                                assert(0 <= i < i + 1 && ms[i as int].selected && ms[i as int].node == n);
                            } else {
                                if k < p {
                                    assert(before[k] == n);
                                } else {
                                    assert(before[k - 1] == n);
                                }
                                assert(before.contains(n));
                                let j = choose|j: int| 0 <= j < i && (#[trigger] ms[j]).selected && ms[j].node == n;
                                assert(0 <= j < i + 1 && ms[j].selected && ms[j].node == n);
                            }
                        }
                        if exists|j: int| 0 <= j < i + 1 && (#[trigger] ms[j]).selected && ms[j].node == n {
                            if n == node {
                                assert(out@[p as int] == n);
                            } else {
                                let j = choose|j: int| 0 <= j < i + 1 && (#[trigger] ms[j]).selected && ms[j].node == n;
                                assert(j < i);
                                assert(before.contains(n));
                                let k = choose|k: int| 0 <= k < before.len() && before[k] == n;
                                if k < p {
                                    assert(out@[k] == n);
                                } else {
                                    assert(out@[k + 1] == n);
                                }
                            }
                        }
                    }
                }
            } else {
                assert forall|n: u128| out@.contains(n) <==> exists|j: int|
                    0 <= j < i + 1 && (#[trigger] ms[j]).selected && ms[j].node == n by {
                    if out@.contains(n) {
                        let j = choose|j: int| 0 <= j < i && (#[trigger] ms[j]).selected && ms[j].node == n;
                        assert(0 <= j < i + 1 && ms[j].selected && ms[j].node == n);
                    }
                }
            }
            i = i + 1;
        }
        assert forall|n: u128| out@.contains(n) <==> exists|i: int|
            0 <= i < self.matches_of().len() && (#[trigger] self.matches_of()[i]).selected
                && self.matches_of()[i].node == n by {
            if out@.contains(n) {
                let j = choose|j: int| 0 <= j < ms.len() && (#[trigger] ms[j]).selected && ms[j].node == n;
                assert(self.matches_of()[j] == ms[j]);
            }
            if exists|i: int|
                0 <= i < self.matches_of().len() && (#[trigger] self.matches_of()[i]).selected
                    && self.matches_of()[i].node == n {
                let j = choose|i: int|
                    0 <= i < self.matches_of().len() && (#[trigger] self.matches_of()[i]).selected
                        && self.matches_of()[i].node == n;
                assert(ms[j].selected && ms[j].node == n);
            }
        }
        out
    }
}

/// The text of `node` after the selected preview matches are replaced, from
/// the last match to the first, each only where the text still holds the
/// query. The preview must have recorded the document's fingerprint, and
/// both the cached body and the body on disk must still have it.
#[verifier::spinoff_prover]
#[verifier::rlimit(50)]
pub fn replace_selected_in_document(
    preview: &ProjectReplacePreview,
    node: u128,
    cached: &str,
    disk: &str,
) -> (r: Result<Option<String>, ReplaceConflict>)
    ensures
        selected_ranges(preview.matches_of(), node).len() == 0 ==> r matches Ok(None),
        selected_ranges(preview.matches_of(), node).len() > 0 ==> match recorded_fingerprint(
            preview.fingerprints_of(),
            node,
        ) {
            None => r == Err::<Option<String>, ReplaceConflict>(ReplaceConflict { node }),
            Some(f) => if crate::document::fingerprint_of(cached@) != f || crate::document::fingerprint_of(
                disk@,
            ) != f {
                r == Err::<Option<String>, ReplaceConflict>(ReplaceConflict { node })
            } else {
                match replace_ranges(
                    encode_utf8(cached@),
                    selected_ranges(preview.matches_of(), node).sort_by(range_desc()),
                    encode_utf8(preview.query_of()),
                    encode_utf8(preview.replacement_of()),
                ) {
                    None => r == Err::<Option<String>, ReplaceConflict>(ReplaceConflict { node }),
                    Some(bytes) => r matches Ok(Some(s)) && encode_utf8(s@) == bytes,
                }
            },
        },
{
    let ranges = selected_ranges_of(&preview.matches, node);
    let ghost selected = selected_ranges(preview.matches@, node);
    if ranges.len() == 0 {
        return Ok(None);
    }
    let expected = match recorded_fingerprint_of(&preview.fingerprints, node) {
        Some(f) => f,
        None => {
            return Err(ReplaceConflict { node });
        },
    };
    if crate::document::ContentFingerprint::of(cached) != expected || crate::document::ContentFingerprint::of(disk)
        != expected {
        return Err(ReplaceConflict { node });
    }
    let sorted = sort_ranges_desc(&ranges, Ghost(selected));
    proof {
        vstd::utf8::encode_utf8_valid_utf8(cached@);
        vstd::utf8::encode_utf8_valid_utf8(preview.replacement@);
    }
    let replaced = replace_ranges_in(
        cached.as_bytes(),
        &sorted,
        Ghost(selected.sort_by(range_desc())),
        preview.query.as_str().as_bytes(),
        preview.replacement.as_str().as_bytes(),
    );
    match replaced {
        Some(bytes) => {
            proof {
                vstd::utf8::decode_utf8_encode_utf8(bytes@);
            }
            match crate::path::string_from_utf8(bytes) {
                Some(text) => Ok(Some(text)),
                None => Err(ReplaceConflict { node }),
            }
        },
        None => Err(ReplaceConflict { node }),
    }
}

} // verus!

verus! {

/// The kind of a canonical project event, as revision bookkeeping reads it.
#[derive(Clone, Copy, Debug, Eq, PartialEq, Structural)]
pub enum ProjectEventKind {
    NodeCreated,
    NodeReordered,
    NodeReparented,
    NodeDuplicated,
    NodeTrashed,
    NodeRestored,
    NodeRenamed,
    MetadataEdited,
    StyleMutated,
    StyleReplaced,
    CompilePresetSaved,
    CompilePresetRemoved,
}

/// Tree shape changed.
pub open spec fn is_structure_event(e: ProjectEventKind) -> bool {
    e is NodeCreated || e is NodeReordered || e is NodeReparented || e is NodeDuplicated
        || e is NodeTrashed || e is NodeRestored
}

/// Names or metadata changed.
pub open spec fn is_content_event(e: ProjectEventKind) -> bool {
    e is NodeRenamed || e is MetadataEdited
}

/// Styles or compile presets changed.
pub open spec fn is_presentation_event(e: ProjectEventKind) -> bool {
    e is StyleMutated || e is StyleReplaced || e is CompilePresetSaved || e is CompilePresetRemoved
}

/// How many of `events` satisfy `f`.
pub open spec fn count_events(events: Seq<ProjectEventKind>, f: spec_fn(ProjectEventKind) -> bool) -> int
    decreases events.len(),
{
    if events.len() == 0 {
        0
    } else {
        count_events(events.drop_last(), f) + if f(events.last()) {
            1int
        } else {
            0
        }
    }
}

impl WorkspaceRevisions {
    /// Advances each invalidation domain once per event in it, saturating;
    /// the selection revision is untouched.
    pub fn record_events(&mut self, events: &Vec<ProjectEventKind>)
        ensures
            final(self).structure == crate::text::saturated(
                old(self).structure + count_events(events@, |e: ProjectEventKind| is_structure_event(e)),
            ),
            final(self).content == crate::text::saturated(
                old(self).content + count_events(events@, |e: ProjectEventKind| is_content_event(e)),
            ),
            final(self).presentation == crate::text::saturated(
                old(self).presentation + count_events(
                    events@,
                    |e: ProjectEventKind| is_presentation_event(e),
                ),
            ),
            final(self).selection == old(self).selection,
    {
        let ghost fs = |e: ProjectEventKind| is_structure_event(e);
        let ghost fc = |e: ProjectEventKind| is_content_event(e);
        let ghost fp = |e: ProjectEventKind| is_presentation_event(e);
        let ghost start = *self;
        let mut i: usize = 0;
        while i < events.len()
            invariant
                i <= events@.len(),
                fs == (|e: ProjectEventKind| is_structure_event(e)),
                fc == (|e: ProjectEventKind| is_content_event(e)),
                fp == (|e: ProjectEventKind| is_presentation_event(e)),
                self.structure == crate::text::saturated(start.structure + count_events(events@.take(i as int), fs)),
                self.content == crate::text::saturated(start.content + count_events(events@.take(i as int), fc)),
                self.presentation == crate::text::saturated(
                    start.presentation + count_events(events@.take(i as int), fp),
                ),
                self.selection == start.selection,
                count_events(events@.take(i as int), fs) >= 0,
                count_events(events@.take(i as int), fc) >= 0,
                count_events(events@.take(i as int), fp) >= 0,
            decreases events.len() - i,
        {
            assert(events@.take(i + 1).drop_last() =~= events@.take(i as int));
            assert(events@.take(i + 1).last() == events@[i as int]);
            match events[i] {
                ProjectEventKind::NodeCreated | ProjectEventKind::NodeReordered
                | ProjectEventKind::NodeReparented | ProjectEventKind::NodeDuplicated
                | ProjectEventKind::NodeTrashed | ProjectEventKind::NodeRestored => {
                    self.structure = self.structure.saturating_add(1);
                },
                ProjectEventKind::NodeRenamed | ProjectEventKind::MetadataEdited => {
                    self.content = self.content.saturating_add(1);
                },
                ProjectEventKind::StyleMutated | ProjectEventKind::StyleReplaced
                | ProjectEventKind::CompilePresetSaved | ProjectEventKind::CompilePresetRemoved => {
                    self.presentation = self.presentation.saturating_add(1);
                },
            }
            i = i + 1;
        }
        assert(events@.take(i as int) =~= events@);
    }
}

impl WorkspaceRevisions {
    /// Advances the selection revision, saturating, when the selection
    /// changed; the other domains are untouched.
    pub fn record_selection(&mut self, before: &Vec<u128>, after: &Vec<u128>)
        ensures
            *final(self) == (WorkspaceRevisions {
                selection: if before@ != after@ {
                    crate::text::saturated(old(self).selection + 1)
                } else {
                    old(self).selection
                },
                ..*old(self)
            }),
    {
        if !same_ids(before, after) {
            self.selection = self.selection.saturating_add(1);
        }
    }
}

fn same_ids(a: &Vec<u128>, b: &Vec<u128>) -> (r: bool)
    ensures
        r == (a@ == b@),
{
    if a.len() != b.len() {
        return false;
    }
    let mut i: usize = 0;
    while i < a.len()
        invariant
            i <= a@.len(),
            a@.len() == b@.len(),
            forall|j: int| 0 <= j < i ==> a@[j] == b@[j],
        decreases a.len() - i,
    {
        if a[i] != b[i] {
            return false;
        }
        i = i + 1;
    }
    assert(a@ =~= b@);
    true
}

/// Why a structural save completion was refused.
#[derive(Clone, Copy, Debug, Eq, PartialEq)]
pub enum StructuralSaveError {
    /// A structural save completed without a pending command.
    NoPendingCommand,
    /// Structural save completions arrived out of order.
    OutOfOrder,
}

/// What a structural save completion asks of the workspace.
#[derive(Clone, Debug, Eq, PartialEq)]
pub enum StructuralCompletion {
    /// The oldest pending command is durable; `idle` when none remain.
    Acknowledged { idle: bool },
    /// The save failed: these commands, newest first, must be rolled back.
    RolledBack(Vec<u64>),
}

/// Structural commands applied optimistically and handed to the save worker,
/// oldest first, with the sequence number the next one gets.
#[derive(Clone, Debug, Eq, PartialEq)]
pub struct StructuralSaveQueue {
    pending: Vec<u64>,
    next: u64,
}

impl StructuralSaveQueue {
    pub closed spec fn pending_of(&self) -> Seq<u64> {
        self.pending@
    }

    pub closed spec fn next_of(&self) -> u64 {
        self.next
    }

    /// An empty queue whose first sequence number is 1.
    pub fn new() -> (q: Self)
        ensures
            q.pending_of().len() == 0,
            q.next_of() == 1,
    {
        StructuralSaveQueue { pending: Vec::new(), next: 1 }
    }

    /// Takes the next sequence number.
    pub fn reserve(&mut self) -> (sequence: u64)
        ensures
            sequence == old(self).next_of(),
            final(self).next_of() == crate::text::saturated(old(self).next_of() + 1),
            final(self).pending_of() == old(self).pending_of(),
    {
        let sequence = self.next;
        self.next = self.next.saturating_add(1);
        sequence
    }

    /// Records a command handed to the save worker.
    pub fn push(&mut self, sequence: u64)
        ensures
            final(self).pending_of() == old(self).pending_of().push(sequence),
            final(self).next_of() == old(self).next_of(),
    {
        self.pending.push(sequence);
    }

    /// Whether any handed-over command is not durable yet.
    pub fn has_pending(&self) -> (b: bool)
        ensures
            b == (self.pending_of().len() > 0),
    {
        self.pending.len() > 0
    }

    /// Applies one completion. Completions must arrive in order; a failure
    /// rolls back that command and every later one, newest first.
    pub fn complete(&mut self, sequence: u64, succeeded: bool) -> (r: Result<
        StructuralCompletion,
        StructuralSaveError,
    >)
        ensures
            final(self).next_of() == old(self).next_of(),
            old(self).pending_of().len() == 0 ==> (r == Err::<StructuralCompletion, StructuralSaveError>(
                StructuralSaveError::NoPendingCommand,
            ) && final(self).pending_of() == old(self).pending_of()),
            old(self).pending_of().len() > 0 && old(self).pending_of()[0] != sequence ==> (r
                == Err::<StructuralCompletion, StructuralSaveError>(StructuralSaveError::OutOfOrder)
                && final(self).pending_of() == old(self).pending_of()),
            old(self).pending_of().len() > 0 && old(self).pending_of()[0] == sequence && succeeded ==> (
            r == Ok::<StructuralCompletion, StructuralSaveError>(
                StructuralCompletion::Acknowledged { idle: old(self).pending_of().len() == 1 },
            ) && final(self).pending_of() == old(self).pending_of().drop_first()),
            old(self).pending_of().len() > 0 && old(self).pending_of()[0] == sequence && !succeeded ==> (
            r matches Ok(StructuralCompletion::RolledBack(rolled)) && rolled@ == old(
                self,
            ).pending_of().reverse() && final(self).pending_of().len() == 0),
    {
        if self.pending.len() == 0 {
            return Err(StructuralSaveError::NoPendingCommand);
        }
        if self.pending[0] != sequence {
            return Err(StructuralSaveError::OutOfOrder);
        }
        if succeeded {
            let ghost before = self.pending@;
            self.pending.remove(0);
            assert(self.pending@ =~= before.drop_first());
            return Ok(StructuralCompletion::Acknowledged { idle: self.pending.len() == 0 });
        }
        let mut rolled: Vec<u64> = Vec::new();
        let ghost before = self.pending@;
        while self.pending.len() > 0
            invariant
                before.len() >= self.pending@.len(),
                self.next == old(self).next,
                self.pending@ == before.take(self.pending@.len() as int),
                rolled@ == before.skip(self.pending@.len() as int).reverse(),
            decreases self.pending@.len(),
        {
            let ghost n = self.pending@.len();
            let last = self.pending.pop();
            match last {
                Some(value) => {
                    assert(value == before[n - 1]);
                    rolled.push(value);
                    assert(rolled@ =~= before.skip(n - 1).reverse());
                    assert(self.pending@ =~= before.take(n - 1));
                },
                None => {},
            }
        }
        assert(before.skip(0) =~= before);
        Ok(StructuralCompletion::RolledBack(rolled))
    }
}

} // verus!

verus! {

proof fn lemma_boundary_agrees(out: Seq<u8>, source: Seq<u8>, bound: int, i: int)
    requires
        valid_utf8(out),
        valid_utf8(source),
        0 <= i < bound,
        bound <= out.len(),
        bound <= source.len(),
        out.subrange(0, bound) == source.subrange(0, bound),
    ensures
        is_char_boundary(out, i) == is_char_boundary(source, i),
{
    vstd::utf8::is_char_boundary_iff_not_is_continuation_byte(out, i);
    vstd::utf8::is_char_boundary_iff_not_is_continuation_byte(source, i);
    assert(out[i] == out.subrange(0, bound)[i]);
    assert(source[i] == source.subrange(0, bound)[i]);
}

proof fn lemma_replace_below_bound(
    out: Seq<u8>,
    source: Seq<u8>,
    ranges: Seq<(int, int)>,
    query: Seq<u8>,
    replacement: Seq<u8>,
    bound: int,
)
    requires
        valid_utf8(out),
        valid_utf8(source),
        valid_utf8(replacement),
        0 <= bound <= out.len(),
        bound <= source.len(),
        out.subrange(0, bound) == source.subrange(0, bound),
        is_char_boundary(out, bound),
        forall|i: int|
            0 <= i < ranges.len() ==> {
                let r = #[trigger] ranges[i];
                &&& 0 <= r.0
                &&& r.1 <= bound
                &&& r.1 == r.0 + query.len()
                &&& is_char_boundary(source, r.0)
                &&& is_char_boundary(source, r.1)
                &&& bytes_match_at(source, query, r.0, false)
            },
        forall|i: int, j: int| 0 <= i < j < ranges.len() ==> (#[trigger] ranges[j]).1 <= (#[trigger] ranges[i]).0,
    ensures
        replace_ranges(out, ranges, query, replacement) is Some,
    decreases ranges.len(),
{
    if ranges.len() > 0 {
        let r = ranges[0];
        assert(0 <= r.0 && r.1 <= bound && r.1 == r.0 + query.len());
        if r.0 < bound {
            lemma_boundary_agrees(out, source, bound, r.0);
        }
        if r.1 < bound {
            lemma_boundary_agrees(out, source, bound, r.1);
        }
        assert forall|j: int| 0 <= j < query.len() implies ascii_lower_byte(#[trigger] out[r.0 + j])
            == ascii_lower_byte(query[j]) by {
            assert(out[r.0 + j] == out.subrange(0, bound)[r.0 + j]);
            assert(source[r.0 + j] == source.subrange(0, bound)[r.0 + j]);
        }
        assert(range_holds_query(out, r, query));
        let prefix = out.subrange(0, r.0);
        let suffix = out.subrange(r.1, out.len() as int);
        vstd::utf8::valid_utf8_split(out, r.0);
        vstd::utf8::valid_utf8_split(out, r.1);
        vstd::utf8::valid_utf8_concat(replacement, suffix);
        crate::encoding::lemma_boundary_at_concat(prefix, replacement + suffix);
        let next = prefix + replacement + suffix;
        assert(next =~= prefix + (replacement + suffix));
        assert(next.subrange(0, r.0) =~= source.subrange(0, r.0)) by {
            assert forall|t: int| 0 <= t < r.0 implies next.subrange(0, r.0)[t] == source.subrange(
                0,
                r.0,
            )[t] by {
                assert(next[t] == prefix[t]);
                assert(out[t] == out.subrange(0, bound)[t]);
                assert(source[t] == source.subrange(0, bound)[t]);
            }
        }
        let rest = ranges.drop_first();
        assert forall|i: int| 0 <= i < rest.len() implies {
            let q = #[trigger] rest[i];
            &&& 0 <= q.0
            &&& q.1 <= r.0
            &&& q.1 == q.0 + query.len()
            &&& is_char_boundary(source, q.0)
            &&& is_char_boundary(source, q.1)
            &&& bytes_match_at(source, query, q.0, false)
        } by {
            assert(rest[i] == ranges[i + 1]);
            assert(ranges[i + 1].1 <= ranges[0].0);
        }
        assert forall|i: int, j: int| 0 <= i < j < rest.len() implies (#[trigger] rest[j]).1 <= (
        #[trigger] rest[i]).0 by {
            assert(rest[j] == ranges[j + 1]);
            assert(rest[i] == ranges[i + 1]);
        }
        lemma_replace_below_bound(next, source, rest, query, replacement, r.0);
    }
}

/// A case-sensitive preview applied to the unchanged document replaces every
/// selected match without conflict: any duplicate-free selection of the
/// document's exact matches, replaced from the last to the first, always
/// still finds the query where the preview saw it.
pub proof fn lemma_exact_matches_replace_cleanly(
    body: Seq<char>,
    query: Seq<char>,
    replacement: Seq<char>,
    selected: Seq<(int, int)>,
)
    requires
        query.len() > 0,
        selected.no_duplicates(),
        forall|i: int|
            0 <= i < selected.len() ==> literal_matches(body, query, true).contains(#[trigger] selected[i]),
    ensures
        replace_ranges(
            encode_utf8(body),
            selected.sort_by(range_desc()),
            encode_utf8(query),
            encode_utf8(replacement),
        ) is Some,
{
    broadcast use vstd::seq_lib::group_to_multiset_ensures;

    let b = encode_utf8(body);
    let q = encode_utf8(query);
    let r = encode_utf8(replacement);
    crate::encoding::lemma_byte_len_is_encoding_len(query);
    crate::encoding::lemma_utf8_len_pos(query.last());
    assert(q.len() > 0);
    let m = exact_matches_from(b, q, 0);
    assert(literal_matches(body, query, true) == m);
    vstd::utf8::encode_utf8_valid_utf8(body);
    vstd::utf8::encode_utf8_valid_utf8(replacement);
    lemma_exact_matches_ordered(b, q, 0);
    let leq = range_desc();
    lemma_range_desc_total();
    selected.lemma_sort_by_ensures(leq);
    let d = selected.sort_by(leq);
    assert forall|i: int| 0 <= i < d.len() implies m.contains(#[trigger] d[i]) by {
        assert(d.to_multiset().contains(d[i]));
        assert(selected.to_multiset().contains(d[i]));
        assert(selected.contains(d[i]));
        let k = choose|k: int| 0 <= k < selected.len() && selected[k] == d[i];
        assert(m.contains(selected[k]));
    }
    assert(d.no_duplicates()) by {
        selected.lemma_multiset_has_no_duplicates();
        d.lemma_multiset_has_no_duplicates_conv();
    }
    assert forall|i: int| 0 <= i < d.len() implies {
        let x = #[trigger] d[i];
        &&& 0 <= x.0
        &&& x.1 <= b.len()
        &&& x.1 == x.0 + q.len()
        &&& is_char_boundary(b, x.0)
        &&& is_char_boundary(b, x.1)
        &&& bytes_match_at(b, q, x.0, false)
    } by {
        let k = choose|k: int| 0 <= k < m.len() && m[k] == d[i];
        lemma_exact_match_bounds(b, q, 0, k);
        assert forall|j: int| 0 <= j < q.len() implies b[m[k].0 + j] == #[trigger] q[j] by {}
        crate::encoding::lemma_encoded_match_ends_on_boundary(b, query, m[k].0);
        assert(0 <= m[k].0);
    }
    assert forall|i: int, j: int| 0 <= i < j < d.len() implies (#[trigger] d[j]).1 <= (
    #[trigger] d[i]).0 by {
        assert(leq(d[i], d[j]));
        let a = choose|a: int| 0 <= a < m.len() && m[a] == d[j];
        let c = choose|c: int| 0 <= c < m.len() && m[c] == d[i];
        assert(d[i] != d[j]);
        if a >= c {
            if a > c {
                assert(m[c].1 <= m[a].0);
            }
        }
    }
    vstd::utf8::is_char_boundary_start_end_of_seq(b);
    lemma_replace_below_bound(b, b, d, q, r, b.len() as int);
}

} // verus!
