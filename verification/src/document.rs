//! Safe lifecycle for one open editor document: content fingerprints, dirty
//! block tracking, UTF-16 editor offsets, and the revisioned journal/save
//! protocol.

use crate::chars::{chars_of, slice_chars, string_from_chars};
use crate::encoding::{char_len_utf16, str_byte_len, utf16_len};
use crate::text::{fnv1a, fnv1a_hash, text_statistics};
use std::ops::Range;
use std::path::PathBuf;
use vstd::prelude::*;
use vstd::utf8::encode_utf8;

verus! {

/// The character position reached by walking UTF-16 code units from the
/// front of `s`: `Some(0)` for offset zero; otherwise the first character is
/// consumed when the remaining offset covers all of its code units, and an
/// offset that falls inside a character or beyond the end has no position.
pub open spec fn utf16_to_char(s: Seq<char>, target: int) -> Option<int>
    decreases s.len(),
{
    if target == 0 {
        Some(0)
    } else if s.len() == 0 || target < utf16_len(s[0]) {
        None
    } else {
        match utf16_to_char(s.drop_first(), target - utf16_len(s[0])) {
            Some(k) => Some(k + 1),
            None => None,
        }
    }
}

/// Number of UTF-16 code units that encode `s`.
pub open spec fn utf16_units(s: Seq<char>) -> nat
    decreases s.len(),
{
    if s.len() == 0 {
        0
    } else {
        utf16_len(s[0]) + utf16_units(s.drop_first())
    }
}

/// An editor offset names the character position whose prefix has exactly
/// that many UTF-16 code units; an offset inside a surrogate pair or past
/// the end names none.
pub proof fn lemma_utf16_position(s: Seq<char>, target: int, k: int)
    ensures
        utf16_to_char(s, target) == Some(k) <==> (0 <= k <= s.len() && utf16_units(s.take(k)) == target),
    decreases s.len(),
{
    if s.len() > 0 {
        let rest = s.drop_first();
        lemma_utf16_position(rest, target - utf16_len(s[0]), k - 1);
        if k > 0 && k <= s.len() {
            assert(s.take(k).drop_first() =~= rest.take(k - 1));
            assert(s.take(k)[0] == s[0]);
        }
        assert(s.take(0) =~= Seq::<char>::empty());
        if 0 <= k <= s.len() && utf16_units(s.take(k)) == target && target == 0 && k > 0 {
            assert(s.take(k)[0] == s[0]);
            assert(s.take(k).drop_first() =~= rest.take(k - 1));
            assert(utf16_units(s.take(k)) >= 1);
        }
    } else {
        assert(s.take(0) =~= s);
        if 0 <= k <= s.len() {
            assert(s.take(k) =~= s);
        }
    }
}

/// The character range of an editor delta: its ends are the character
/// positions whose prefixes hold `position` and `position + removed`
/// UTF-16 code units.
pub proof fn lemma_delta_positions_meaning(s: Seq<char>, position: int, removed: int, a: int, b: int)
    requires
        position + removed <= usize::MAX,
    ensures
        delta_positions(s, position, removed) == Some((a, b)) <==> (0 <= a <= s.len() && 0 <= b
            <= s.len() && utf16_units(s.take(a)) == position && utf16_units(s.take(b)) == position
            + removed),
{
    lemma_utf16_position(s, position, a);
    lemma_utf16_position(s, position + removed, b);
}

/// Converts an editor UTF-16 offset into a character position of `chars`.
pub fn utf16_offset_to_char(chars: &Vec<char>, target: usize) -> (r: Option<usize>)
    ensures
        r matches Some(k) ==> utf16_to_char(chars@, target as int) == Some(k as int),
        r is None ==> utf16_to_char(chars@, target as int) is None,
{
    if target == 0 {
        return Some(0);
    }
    let mut utf16: usize = 0;
    let mut k: usize = 0;
    assert(chars@.skip(0) =~= chars@);
    while k < chars.len()
        invariant
            k <= chars@.len(),
            target > 0,
            utf16 <= target,
            utf16_to_char(chars@, target as int) == match utf16_to_char(
                chars@.skip(k as int),
                target - utf16,
            ) {
                Some(j) => Some(j + k),
                None => None::<int>,
            },
        decreases chars.len() - k,
    {
        let c = chars[k];
        if utf16 == target {
            return Some(k);
        }
        proof {
            assert(chars@.skip(k as int).drop_first() =~= chars@.skip(k + 1));
            assert(chars@.skip(k as int)[0] == c);
        }
        let units = char_len_utf16(c);
        match utf16.checked_add(units) {
            Some(next) => {
                utf16 = next;
            },
            None => {
                return None;
            },
        }
        if utf16 > target {
            return None;
        }
        k = k + 1;
    }
    assert(chars@.skip(k as int) =~= Seq::<char>::empty());
    if utf16 == target {
        Some(k)
    } else {
        None
    }
}

/// `after - before` as a signed count, saturating at `±i64::MAX`.
pub open spec fn signed_delta(after: int, before: int) -> int {
    if after >= before {
        if after - before <= i64::MAX {
            after - before
        } else {
            i64::MAX as int
        }
    } else {
        if before - after <= i64::MAX {
            after - before
        } else {
            -(i64::MAX as int)
        }
    }
}

/// Signed difference of two counts.
pub fn signed_difference(after: u64, before: u64) -> (d: i64)
    ensures
        d == signed_delta(after as int, before as int),
{
    if after >= before {
        let diff = after - before;
        if diff <= i64::MAX as u64 {
            diff as i64
        } else {
            i64::MAX
        }
    } else {
        let diff = before - after;
        if diff <= i64::MAX as u64 {
            -(diff as i64)
        } else {
            -i64::MAX
        }
    }
}

/// Deterministic content fingerprint: byte length plus 64-bit FNV-1a. This
/// is a change detector, not an authenticity primitive.
#[derive(Clone, Copy, Debug, Eq, PartialEq, Structural)]
pub struct ContentFingerprint {
    pub bytes: u64,
    pub hash: i64,
}

/// The fingerprint of a character sequence.
pub open spec fn fingerprint_of(s: Seq<char>) -> ContentFingerprint {
    ContentFingerprint {
        bytes: encode_utf8(s).len() as u64,
        hash: fnv1a_hash(encode_utf8(s)) as i64,
    }
}

impl ContentFingerprint {
    /// Fingerprints the UTF-8 bytes of `source`.
    pub fn of(source: &str) -> (f: Self)
        ensures
            f == fingerprint_of(source@),
    {
        let hash = fnv1a(source);
        let bytes = str_byte_len(source);
        ContentFingerprint { bytes: bytes as u64, hash }
    }
}

} // verus!

verus! {

/// Ranges that are each non-empty, in increasing order, and separated by at
/// least one uncovered position (touching ranges are always merged).
pub open spec fn merged_ranges(r: Seq<Range<usize>>) -> bool {
    &&& forall|i: int| 0 <= i < r.len() ==> (#[trigger] r[i]).start < r[i].end
    &&& forall|i: int, j: int| 0 <= i < j < r.len() ==> (#[trigger] r[i]).end < (#[trigger] r[j]).start
}

/// The last range is the empty range at the largest block index, which an
/// edit there leaves behind when its widening saturates.
pub open spec fn has_empty_tail(r: Seq<Range<usize>>) -> bool {
    r.len() > 0 && r.last().start == usize::MAX && r.last().end == usize::MAX
}

/// Merged ranges, possibly followed by the empty range at the largest
/// block index after ranges that all end below it.
pub open spec fn ranges_wf(r: Seq<Range<usize>>) -> bool {
    ||| merged_ranges(r)
    ||| has_empty_tail(r) && merged_ranges(r.drop_last()) && forall|i: int|
        0 <= i < r.len() - 1 ==> (#[trigger] r[i]).end < usize::MAX
}

/// Position `x` lies inside one of the ranges.
pub open spec fn ranges_cover(r: Seq<Range<usize>>, x: int) -> bool {
    exists|i: int| 0 <= i < r.len() && (#[trigger] r[i]).start <= x < r[i].end
}

/// Position `x` lies inside one of the ranges at index `from` or later.
pub open spec fn ranges_cover_from(r: Seq<Range<usize>>, from: int, x: int) -> bool {
    exists|i: int| from <= i < r.len() && (#[trigger] r[i]).start <= x < r[i].end
}

proof fn lemma_cover_from_step(r: Seq<Range<usize>>, i: int, x: int)
    requires
        0 <= i < r.len(),
    ensures
        ranges_cover_from(r, i, x) == ((r[i].start <= x < r[i].end) || ranges_cover_from(r, i + 1, x)),
{
    if ranges_cover_from(r, i, x) && !(r[i].start <= x < r[i].end) {
        let j = choose|j: int| i <= j < r.len() && (#[trigger] r[j]).start <= x < r[j].end;
        assert(j != i);
        assert(ranges_cover_from(r, i + 1, x));
    }
}

proof fn lemma_cover_push(r: Seq<Range<usize>>, a: Range<usize>, x: int)
    ensures
        ranges_cover(r.push(a), x) == (ranges_cover(r, x) || (a.start <= x < a.end)),
{
    let p = r.push(a);
    if ranges_cover(p, x) {
        let j = choose|j: int| 0 <= j < p.len() && (#[trigger] p[j]).start <= x < p[j].end;
        if j < r.len() {
            assert(r[j] == p[j]);
        }
    }
    if ranges_cover(r, x) {
        let j = choose|j: int| 0 <= j < r.len() && (#[trigger] r[j]).start <= x < r[j].end;
        assert(p[j] == r[j]);
    }
    if a.start <= x < a.end {
        assert(p[r.len() as int] == a);
    }
}

/// Block ranges edited since the last canonical save, kept merged.
#[derive(Clone, Debug, Eq, PartialEq)]
pub struct DirtyBlocks {
    ranges: Vec<Range<usize>>,
}

impl View for DirtyBlocks {
    type V = Seq<Range<usize>>;

    closed spec fn view(&self) -> Seq<Range<usize>> {
        self.ranges@
    }
}

impl Default for DirtyBlocks {
    fn default() -> (d: Self)
        ensures
            d@ == Seq::<Range<usize>>::empty(),
    {
        DirtyBlocks { ranges: Vec::new() }
    }
}

impl DirtyBlocks {
    /// The merged dirty ranges, in increasing order.
    pub fn ranges(&self) -> (r: &[Range<usize>])
        ensures
            r@ == self@,
    {
        self.ranges.as_slice()
    }

    /// Marks `incoming` (in either orientation, widened to at least one
    /// block) dirty, merging it with every range it overlaps or touches.
    /// Widening saturates at the largest block index: an edit there leaves
    /// the empty range at that index behind unless a range already ends
    /// there.
    pub fn insert(&mut self, incoming: Range<usize>)
        requires
            ranges_wf(old(self)@),
        ensures
            ranges_wf(final(self)@),
            forall|x: int|
                ranges_cover(final(self)@, x) <==> (ranges_cover(old(self)@, x) || ({
                    let lo = if incoming.start <= incoming.end {
                        incoming.start
                    } else {
                        incoming.end
                    };
                    let hi = if incoming.start <= incoming.end {
                        incoming.end
                    } else {
                        incoming.start
                    };
                    lo <= x < range_high(lo as int, hi as int)
                })),
            !has_empty_tail(old(self)@) && range_low(incoming.start as int, incoming.end as int)
                < usize::MAX ==> merged_ranges(final(self)@),
            has_empty_tail(final(self)@) <==> ((has_empty_tail(old(self)@) || range_low(
                incoming.start as int,
                incoming.end as int,
            ) == usize::MAX) && !ranges_cover(final(self)@, usize::MAX - 1)),
    {
        let mut start = incoming.start;
        let mut end = incoming.end;
        if end < start {
            let t = start;
            start = end;
            end = t;
        }
        let ghost before = self.ranges@;
        assert(before == old(self)@);
        let n = self.ranges.len();
        let empty_tail = n > 0 && self.ranges[n - 1].start == usize::MAX && self.ranges[n - 1].end
            == usize::MAX;
        if empty_tail {
            self.ranges.pop();
            proof {
                assert(self.ranges@ =~= before.drop_last());
                assert forall|x: int| ranges_cover(before, x) == ranges_cover(self.ranges@, x) by {
                    lemma_cover_push(self.ranges@, before.last(), x);
                    assert(before =~= self.ranges@.push(before.last()));
                }
            }
        }
        let ghost popped = self.ranges@;
        assert(forall|x: int| ranges_cover(popped, x) == ranges_cover(before, x));
        assert(merged_ranges(self.ranges@));
        assert(has_empty_tail(before) == empty_tail);
        assert(start == range_low(incoming.start as int, incoming.end as int));
        proof {
            Self::lemma_reaches_max(popped);
        }
        if start == usize::MAX {
            let m = self.ranges.len();
            if m == 0 || self.ranges[m - 1].end < usize::MAX {
                let ghost kept = self.ranges@;
                self.ranges.push(usize::MAX..usize::MAX);
                proof {
                    self.lemma_empty_tail_added(kept);
                }
            }
            assert(forall|x: int| ranges_cover(self.ranges@, x) == ranges_cover(popped, x));
            assert(range_high(start as int, end as int) == start);
            assert(self@ == self.ranges@);
            return;
        }
        let ghost hi0 = end as int;
        if end < start + 1 {
            end = start + 1;
        }
        assert(end == range_high(start as int, hi0));
        self.merge(start, end);
        let ghost merged = self.ranges@;
        proof {
            Self::lemma_reaches_max(merged);
        }
        let m = self.ranges.len();
        if empty_tail && self.ranges[m - 1].end < usize::MAX {
            self.ranges.push(usize::MAX..usize::MAX);
            proof {
                self.lemma_empty_tail_added(merged);
            }
        }
        assert(forall|x: int| ranges_cover(self.ranges@, x) == ranges_cover(merged, x));
        assert forall|x: int| ranges_cover(self@, x) <==> (ranges_cover(old(self)@, x) || ({
            let lo = if incoming.start <= incoming.end {
                incoming.start
            } else {
                incoming.end
            };
            let hi = if incoming.start <= incoming.end {
                incoming.end
            } else {
                incoming.start
            };
            lo <= x < range_high(lo as int, hi as int)
        })) by {
            assert(ranges_cover(merged, x) <==> (ranges_cover(popped, x) || (start <= x < end)));
            assert(ranges_cover(popped, x) == ranges_cover(before, x));
            assert(ranges_cover(self@, x) == ranges_cover(merged, x));
        }
    }

    /// Merged ranges reach the largest block index exactly when they cover
    /// the block just below it.
    proof fn lemma_reaches_max(r: Seq<Range<usize>>)
        requires
            merged_ranges(r),
        ensures
            ranges_cover(r, usize::MAX - 1) <==> (r.len() > 0 && r.last().end == usize::MAX),
            !has_empty_tail(r),
    {
        if r.len() > 0 {
            assert(r[r.len() - 1].start < r[r.len() - 1].end);
            if r.last().end == usize::MAX {
                assert(r[r.len() - 1].start <= usize::MAX - 1 < r[r.len() - 1].end);
            }
        }
        if ranges_cover(r, usize::MAX - 1) {
            let k = choose|k: int| 0 <= k < r.len() && (#[trigger] r[k]).start <= usize::MAX - 1 < r[k].end;
            if k < r.len() - 1 {
                assert(r[k].end < r[r.len() - 1].start);
            }
        }
    }

    proof fn lemma_empty_tail_added(&self, kept: Seq<Range<usize>>)
        requires
            merged_ranges(kept),
            kept.len() == 0 || kept.last().end < usize::MAX,
            self@ == kept.push(usize::MAX..usize::MAX),
        ensures
            ranges_wf(self@),
            forall|x: int| ranges_cover(self@, x) == ranges_cover(kept, x),
    {
        let r = self@;
        assert(r.drop_last() =~= kept);
        assert forall|i: int| 0 <= i < r.len() - 1 implies (#[trigger] r[i]).end < usize::MAX by {
            assert(r[i] == kept[i]);
            if i < kept.len() - 1 {
                assert(kept[i].end < kept[kept.len() - 1].start);
            }
        }
        assert forall|x: int| ranges_cover(r, x) == ranges_cover(kept, x) by {
            lemma_cover_push(kept, usize::MAX..usize::MAX, x);
        }
    }

    /// Merges the non-empty range `start..end` into merged ranges.
    fn merge(&mut self, start: usize, end: usize)
        requires
            merged_ranges(old(self)@),
            start < end,
        ensures
            merged_ranges(final(self)@),
            final(self)@.len() > 0,
            forall|x: int| ranges_cover(final(self)@, x) <==> (ranges_cover(old(self)@, x) || (start <= x < end)),
    {
        let mut start = start;
        let mut end = end;
        let ghost lo = start as int;
        let ghost hi = end as int;
        let mut merged: Vec<Range<usize>> = Vec::new();
        let mut i: usize = 0;
        let ghost old_ranges = self.ranges;
        assert forall|x: int| ranges_cover(old_ranges@, x) == ranges_cover_from(old_ranges@, 0, x) by {}
        while i < self.ranges.len()
            invariant
                i <= old_ranges@.len(),
                self.ranges == old_ranges,
                old_ranges@ == old(self)@,
                merged_ranges(old_ranges@),
                merged_ranges(merged@),
                start < end,
                forall|m: int| 0 <= m < merged@.len() ==> (#[trigger] merged@[m]).end < start,
                forall|m: int, j: int|
                    0 <= m < merged@.len() && i <= j < old_ranges@.len() ==> (#[trigger] merged@[m]).end
                        < (#[trigger] old_ranges@[j]).start,
                forall|x: int|
                    (ranges_cover(merged@, x) || (start <= x < end) || ranges_cover_from(
                        old_ranges@,
                        i as int,
                        x,
                    )) <==> (ranges_cover(old_ranges@, x) || (lo <= x < hi)),
            decreases old_ranges@.len() - i,
        {
            let range_start = self.ranges[i].start;
            let range_end = self.ranges[i].end;
            let ghost prev_merged = merged@;
            let ghost prev_start = start as int;
            let ghost prev_end = end as int;
            let ghost prev_i = i as int;
            proof {
                assert forall|x: int| (
                ranges_cover(prev_merged, x) || (prev_start <= x < prev_end) || ranges_cover_from(
                    old_ranges@,
                    prev_i,
                    x,
                )) == (ranges_cover(old_ranges@, x) || (lo <= x < hi)) by {}
                assert forall|x: int| ranges_cover_from(old_ranges@, i as int, x) == ((range_start <= x
                    < range_end) || ranges_cover_from(old_ranges@, i + 1, x)) by {
                    lemma_cover_from_step(old_ranges@, i as int, x);
                }
            }
            if range_end < start {
                merged.push(range_start..range_end);
            } else if end < range_start {
                merged.push(start..end);
                start = range_start;
                end = range_end;
            } else {
                if range_start < start {
                    start = range_start;
                }
                if range_end > end {
                    end = range_end;
                }
            }
            i = i + 1;
            proof {
                assert forall|x: int| (ranges_cover(merged@, x) || (start <= x < end)
                    || ranges_cover_from(old_ranges@, i as int, x)) == (ranges_cover(old_ranges@, x)
                    || (lo <= x < hi)) by {
                    lemma_cover_from_step(old_ranges@, prev_i, x);
                    if range_end < prev_start {
                        assert(merged@ =~= prev_merged.push(range_start..range_end));
                        lemma_cover_push(prev_merged, range_start..range_end, x);
                    } else if prev_end < range_start {
                        assert(merged@ =~= prev_merged.push(prev_start as usize..prev_end as usize));
                        lemma_cover_push(prev_merged, prev_start as usize..prev_end as usize, x);
                    } else {
                        assert(merged@ =~= prev_merged);
                    }
                    assert((ranges_cover(prev_merged, x) || (prev_start <= x < prev_end)
                        || ranges_cover_from(old_ranges@, prev_i, x)) == (ranges_cover(
                        old_ranges@,
                        x,
                    ) || (lo <= x < hi)));
                }
            }
        }
        let ghost before_push = merged@;
        merged.push(start..end);
        proof {
            assert forall|x: int| ranges_cover(merged@, x) == (ranges_cover(before_push, x) || (start
                <= x < end)) by {
                lemma_cover_push(before_push, start..end, x);
            }
            assert forall|x: int| ranges_cover(merged@, x) == (ranges_cover(old_ranges@, x) || (lo
                <= x < hi)) by {
                lemma_cover_push(before_push, start..end, x);
                assert(!ranges_cover_from(old_ranges@, i as int, x));
            }
        }
        self.ranges = merged;
    }

    /// Forgets every dirty range.
    pub fn clear(&mut self)
        ensures
            final(self)@ == Seq::<Range<usize>>::empty(),
    {
        self.ranges.clear();
    }
}

} // verus!

verus! {

/// Identity of one document in a project.
#[derive(Clone, Copy, Debug, PartialEq, Eq, Structural, PartialOrd, Ord, Hash)]
pub struct DocumentId(pub u128);

/// State correlation captured when background work is submitted: the
/// project generation and the document revision it was prepared from.
#[derive(Clone, Copy, Debug, PartialEq, Eq, Structural)]
pub struct WorkStamp {
    pub generation: u64,
    pub revision: u64,
}

impl WorkStamp {
    /// Whether work stamped `self` still describes `generation`/`revision`.
    pub fn is_current(&self, generation: u64, revision: u64) -> (b: bool)
        ensures
            b == (self.generation == generation && self.revision == revision),
    {
        self.generation == generation && self.revision == revision
    }
}

/// Journal debounce and backup retention for document sessions.
#[derive(Clone, Copy, Debug, PartialEq, Eq)]
pub struct DocumentLifecycleConfig {
    /// Quiet time after the last edit before an unforced journal is due, in
    /// milliseconds.
    pub journal_debounce_millis: u64,
    /// Rotating canonical backups kept per document.
    pub rotating_backups: usize,
}

impl Default for DocumentLifecycleConfig {
    fn default() -> (c: Self)
        ensures
            c.journal_debounce_millis == 750,
            c.rotating_backups == 10,
    {
        DocumentLifecycleConfig { journal_debounce_millis: 750, rotating_backups: 10 }
    }
}

/// Which editor surface owns the text.
#[derive(Clone, Copy, Debug, Eq, PartialEq, Structural)]
pub enum EditorMode {
    Wysiwyg,
    Source,
}

/// Persistence state shown to the writer.
#[derive(Clone, Debug, Eq, PartialEq)]
pub enum SaveState {
    Saved,
    Dirty,
    Journaling,
    Saving,
    Error(String),
}

/// Aggregate adjustment produced from a bounded editor text replacement.
#[derive(Clone, Copy, Debug, Default, Eq, PartialEq)]
pub struct TextCountDelta {
    pub words: i64,
    pub characters: i64,
}

/// Result of applying one editor `contentsChange` payload to the session.
#[derive(Clone, Copy, Debug, Eq, PartialEq)]
pub struct AppliedTextDelta {
    pub revision: u64,
    pub counts: TextCountDelta,
}

/// One diagnostic reported by the Markdown parser.
#[derive(Clone, Debug, Eq, PartialEq)]
pub struct ParseDiagnostic {
    pub message: String,
    /// Whether the diagnostic has error severity.
    pub error: bool,
}

/// What the session reads of a parsed Markdown document: its block count,
/// its diagnostics, and its canonical serialization.
#[derive(Debug)]
pub struct ParsedBody {
    pub block_count: usize,
    pub diagnostics: Vec<ParseDiagnostic>,
    pub serialized: String,
}

/// Parse state of the raw source buffer.
#[derive(Debug)]
pub enum SourceParseStatus {
    NotInSourceMode,
    Valid(Vec<ParseDiagnostic>),
    Invalid { message: String },
}

/// Whether a background completion was applied or rejected as stale.
#[derive(Clone, Copy, Debug, Eq, PartialEq, Structural)]
pub enum CompletionDisposition {
    Applied,
    Stale,
}

/// Deterministic persistence boundaries used by crash, full-disk, and
/// permission tests.
#[derive(Clone, Copy, Debug, Eq, PartialEq, Structural)]
pub enum PersistenceFault {
    JournalBeforeReplacement,
    JournalAfterReplacement,
    CanonicalBeforeBackup,
    CanonicalBeforeWrite,
    CanonicalAfterWrite,
    FullDisk,
    PermissionDenied,
}

/// Faults that stop a journal write before the record is replaced.
pub open spec fn journal_stopped_by(fault: Option<PersistenceFault>) -> bool {
    fault == Some(PersistenceFault::JournalBeforeReplacement) || fault == Some(PersistenceFault::FullDisk)
        || fault == Some(PersistenceFault::PermissionDenied)
}

/// Faults that stop a canonical save before its backup is taken.
pub open spec fn canonical_stopped_by(fault: Option<PersistenceFault>) -> bool {
    fault == Some(PersistenceFault::CanonicalBeforeBackup) || fault == Some(PersistenceFault::FullDisk)
        || fault == Some(PersistenceFault::PermissionDenied)
}

impl PersistenceFault {
    /// Faults that stop a journal write before the record is replaced.
    pub fn stops_journal_before_write(fault: Option<PersistenceFault>) -> (b: bool)
        ensures
            b == journal_stopped_by(fault),
    {
        match fault {
            Some(PersistenceFault::JournalBeforeReplacement) => true,
            Some(PersistenceFault::FullDisk) => true,
            Some(PersistenceFault::PermissionDenied) => true,
            _ => false,
        }
    }

    /// Faults that stop a canonical save before its backup is taken.
    pub fn stops_canonical_before_backup(fault: Option<PersistenceFault>) -> (b: bool)
        ensures
            b == canonical_stopped_by(fault),
    {
        match fault {
            Some(PersistenceFault::CanonicalBeforeBackup) => true,
            Some(PersistenceFault::FullDisk) => true,
            Some(PersistenceFault::PermissionDenied) => true,
            _ => false,
        }
    }
}

/// Kind of work a document worker performed.
#[derive(Clone, Copy, Debug, Eq, PartialEq)]
pub enum DocumentWorkKind {
    Journal,
    Canonical,
    ExternalPoll,
}

/// Document worker lifecycle failure.
#[derive(Debug)]
pub enum DocumentWorkerError {
    /// The document lifecycle worker is closed.
    Closed,
    /// The worker's stamp registry is unavailable.
    Poisoned,
}

/// Why a lifecycle operation was refused.
#[derive(Debug)]
pub enum DocumentLifecycleError {
    /// The Markdown parser rejected a body.
    Markdown(String),
    /// The revision counter is exhausted.
    RevisionOverflow,
    /// The operation is not valid in the current editor mode.
    WrongMode,
    /// An editor text delta does not align with the current UTF-16 document.
    InvalidTextDelta,
    /// Raw source is invalid and remains open.
    InvalidRawSource(String),
    /// The revision must be journaled before a canonical save.
    JournalRequired(u64),
    /// Background work is stale.
    StaleWork(WorkStamp),
    /// The canonical document changed again while saving.
    ExternalChangedDuringSave { expected: ContentFingerprint, observed: ContentFingerprint },
    /// An injected persistence fault.
    InjectedFault(PersistenceFault),
    /// A conflict belongs to a different document.
    ConflictDocument,
    /// Unsupported recovery format.
    RecoveryVersion(u32),
    /// A recovery record is larger than any document can be.
    RecoveryTooLarge,
    /// A recovery body fingerprint does not match its payload.
    RecoveryFingerprint,
}

/// The message a save state carries when live text cannot yet replace the
/// canonical document.
pub open spec fn unsaveable_message(reason: Seq<char>) -> Seq<char> {
    "The current text is safely journaled but cannot replace the document yet: "@ + reason
}

fn unsaveable_state(reason: &String) -> (s: SaveState)
    ensures
        s matches SaveState::Error(m) && m@ == unsaveable_message(reason@),
{
    let mut text = "The current text is safely journaled but cannot replace the document yet: ".to_string();
    proof {
        broadcast use vstd::string::group_string_axioms;
    }
    text.append(reason.as_str());
    SaveState::Error(text)
}

fn copy_string(s: &String) -> (r: String)
    ensures
        r == *s,
        r@ == s@,
{
    s.clone()
}

fn copy_diagnostics(d: &Vec<ParseDiagnostic>) -> (r: Vec<ParseDiagnostic>)
    ensures
        r@ == d@,
{
    let mut r: Vec<ParseDiagnostic> = Vec::new();
    let mut i: usize = 0;
    while i < d.len()
        invariant
            i <= d@.len(),
            r@ == d@.take(i as int),
        decreases d.len() - i,
    {
        let item = ParseDiagnostic { message: copy_string(&d[i].message), error: d[i].error };
        assert(item == d@[i as int]);
        r.push(item);
        i = i + 1;
        assert(r@ =~= d@.take(i as int));
    }
    assert(d@.take(i as int) =~= d@);
    r
}

/// Index of the first error-severity diagnostic.
pub open spec fn first_error(d: Seq<ParseDiagnostic>) -> Option<int>
    decreases d.len(),
{
    if d.len() == 0 {
        None
    } else if d[0].error {
        Some(0)
    } else {
        match first_error(d.drop_first()) {
            Some(i) => Some(i + 1),
            None => None,
        }
    }
}

/// A parsed document is invalid source when it has an error diagnostic (the
/// first one explains why) and valid, with all its diagnostics, otherwise.
pub open spec fn status_of_parse(status: SourceParseStatus, d: Seq<ParseDiagnostic>) -> bool {
    match first_error(d) {
        Some(i) => status matches SourceParseStatus::Invalid { message } && message@ == d[i].message@,
        None => status matches SourceParseStatus::Valid(v) && v@ == d,
    }
}

fn source_parse_status(document: &ParsedBody) -> (s: SourceParseStatus)
    ensures
        status_of_parse(s, document.diagnostics@),
{
    let d = &document.diagnostics;
    let mut i: usize = 0;
    assert(d@.skip(0) =~= d@);
    while i < d.len()
        invariant
            i <= d@.len(),
            d@ == document.diagnostics@,
            first_error(d@) == match first_error(d@.skip(i as int)) {
                Some(j) => Some(j + i),
                None => None::<int>,
            },
        decreases d.len() - i,
    {
        assert(d@.skip(i as int).drop_first() =~= d@.skip(i + 1));
        assert(d@.skip(i as int)[0] == d@[i as int]);
        if d[i].error {
            return SourceParseStatus::Invalid { message: copy_string(&d[i].message) };
        }
        i = i + 1;
    }
    SourceParseStatus::Valid(copy_diagnostics(d))
}

} // verus!

verus! {

/// Immutable journal work: everything a recovery record for the stamped
/// revision holds except its creation time, which the writer adds.
#[derive(Debug)]
pub struct JournalRequest {
    pub stamp: WorkStamp,
    pub document_id: DocumentId,
    pub base_fingerprint: ContentFingerprint,
    pub body: String,
}

/// Immutable canonical-save work for a worker.
#[derive(Debug)]
pub struct CanonicalSaveRequest {
    pub stamp: WorkStamp,
    pub document_id: DocumentId,
    pub body: String,
    pub expected_disk_fingerprint: ContentFingerprint,
    pub rotating_backups: usize,
}

/// A canonical body that changed on disk while the session held unsaved
/// local text: both sides are retained for an explicit decision.
#[derive(Debug)]
pub struct ExternalConflict {
    pub document_id: DocumentId,
    pub base_fingerprint: ContentFingerprint,
    pub external_fingerprint: ContentFingerprint,
    pub local_body: String,
    pub external_body: String,
}

/// What observing the canonical body on disk did.
#[derive(Debug)]
pub enum ExternalChange {
    Unchanged,
    AutoReloaded(u64),
    Conflict(ExternalConflict),
}

/// The safe lifecycle of one open editor document: the authoritative live
/// body, its revision, the revisions already journaled and saved, the editor
/// mode, and the persistence state.
pub struct DocumentSession {
    document_id: DocumentId,
    generation: u64,
    revision: u64,
    saved_revision: u64,
    journaled_revision: u64,
    semantic: ParsedBody,
    semantic_dirty: bool,
    body: String,
    mode: EditorMode,
    raw_buffer: Option<String>,
    raw_status: SourceParseStatus,
    dirty_blocks: DirtyBlocks,
    last_edit: Option<u64>,
    save_state: SaveState,
    disk_fingerprint: ContentFingerprint,
    undo_epoch: u64,
    config: DocumentLifecycleConfig,
}

impl DocumentSession {
    pub closed spec fn id_of(&self) -> DocumentId {
        self.document_id
    }

    pub closed spec fn generation_of(&self) -> u64 {
        self.generation
    }

    pub closed spec fn revision_of(&self) -> u64 {
        self.revision
    }

    pub closed spec fn saved_of(&self) -> u64 {
        self.saved_revision
    }

    pub closed spec fn journaled_of(&self) -> u64 {
        self.journaled_revision
    }

    pub closed spec fn semantic_of(&self) -> ParsedBody {
        self.semantic
    }

    /// Whether the live body changed since the semantic document was parsed.
    pub closed spec fn semantic_dirty_of(&self) -> bool {
        self.semantic_dirty
    }

    pub closed spec fn body_of(&self) -> Seq<char> {
        self.body@
    }

    pub closed spec fn mode_of(&self) -> EditorMode {
        self.mode
    }

    pub closed spec fn raw_buffer_of(&self) -> Option<Seq<char>> {
        match self.raw_buffer {
            Some(s) => Some(s@),
            None => None,
        }
    }

    pub closed spec fn raw_status_of(&self) -> SourceParseStatus {
        self.raw_status
    }

    pub closed spec fn dirty_of(&self) -> Seq<Range<usize>> {
        self.dirty_blocks@
    }

    pub closed spec fn last_edit_of(&self) -> Option<u64> {
        self.last_edit
    }

    pub closed spec fn save_state_of(&self) -> SaveState {
        self.save_state
    }

    pub closed spec fn disk_fingerprint_of(&self) -> ContentFingerprint {
        self.disk_fingerprint
    }

    pub closed spec fn undo_epoch_of(&self) -> u64 {
        self.undo_epoch
    }

    pub closed spec fn config_of(&self) -> DocumentLifecycleConfig {
        self.config
    }

    /// Session invariant: nothing is saved that was not journaled, nothing is
    /// journaled beyond the live revision, and dirty ranges stay merged.
    pub closed spec fn wf(&self) -> bool {
        &&& self.saved_revision <= self.journaled_revision <= self.revision
        &&& ranges_wf(self.dirty_blocks@)
    }

    /// The session has edits that are not canonically saved.
    pub open spec fn dirty(&self) -> bool {
        self.revision_of() != self.saved_of()
    }

    /// The stamp of the current revision.
    pub open spec fn current_stamp(&self) -> WorkStamp {
        WorkStamp { generation: self.generation_of(), revision: self.revision_of() }
    }

    /// Opens a session on a canonical body and its parse, at revision zero
    /// with nothing dirty.
    pub fn open(
        document_id: DocumentId,
        generation: u64,
        body: String,
        parsed: Result<ParsedBody, String>,
        config: DocumentLifecycleConfig,
    ) -> (r: Result<Self, DocumentLifecycleError>)
        ensures
            match parsed {
                Ok(p) => r matches Ok(s) && s.wf() && s.id_of() == document_id && s.generation_of()
                    == generation && s.revision_of() == 0 && s.saved_of() == 0 && s.journaled_of()
                    == 0 && s.semantic_of() == p && !s.semantic_dirty_of() && s.body_of() == body@
                    && s.mode_of() == EditorMode::Wysiwyg && s.raw_buffer_of() is None
                    && s.raw_status_of() is NotInSourceMode && s.dirty_of().len() == 0
                    && s.last_edit_of() is None && s.save_state_of() == SaveState::Saved
                    && s.disk_fingerprint_of() == fingerprint_of(body@) && s.undo_epoch_of() == 0
                    && s.config_of() == config,
                Err(m) => r matches Err(DocumentLifecycleError::Markdown(e)) && e@ == m@,
            },
    {
        match parsed {
            Ok(semantic) => {
                let disk_fingerprint = ContentFingerprint::of(body.as_str());
                Ok(DocumentSession {
                    document_id,
                    generation,
                    revision: 0,
                    saved_revision: 0,
                    journaled_revision: 0,
                    semantic,
                    semantic_dirty: false,
                    body,
                    mode: EditorMode::Wysiwyg,
                    raw_buffer: None,
                    raw_status: SourceParseStatus::NotInSourceMode,
                    dirty_blocks: DirtyBlocks::default(),
                    last_edit: None,
                    save_state: SaveState::Saved,
                    disk_fingerprint,
                    undo_epoch: 0,
                    config,
                })
            },
            Err(message) => Err(DocumentLifecycleError::Markdown(message)),
        }
    }

    pub fn document_id(&self) -> (id: DocumentId)
        ensures
            id == self.id_of(),
    {
        self.document_id
    }

    pub fn revision(&self) -> (r: u64)
        ensures
            r == self.revision_of(),
    {
        self.revision
    }

    pub fn saved_revision(&self) -> (r: u64)
        ensures
            r == self.saved_of(),
    {
        self.saved_revision
    }

    pub fn journaled_revision(&self) -> (r: u64)
        ensures
            r == self.journaled_of(),
    {
        self.journaled_revision
    }

    pub fn mode(&self) -> (m: EditorMode)
        ensures
            m == self.mode_of(),
    {
        self.mode
    }

    pub fn undo_epoch(&self) -> (e: u64)
        ensures
            e == self.undo_epoch_of(),
    {
        self.undo_epoch
    }

    pub fn semantic(&self) -> (p: &ParsedBody)
        ensures
            *p == self.semantic_of(),
    {
        &self.semantic
    }

    pub fn diagnostics(&self) -> (d: &[ParseDiagnostic])
        ensures
            d@ == self.semantic_of().diagnostics@,
    {
        self.semantic.diagnostics.as_slice()
    }

    pub fn raw_buffer(&self) -> (b: Option<&str>)
        ensures
            match self.raw_buffer_of() {
                Some(s) => b matches Some(t) && t@ == s,
                None => b is None,
            },
    {
        match &self.raw_buffer {
            Some(s) => Some(s.as_str()),
            None => None,
        }
    }

    pub fn raw_status(&self) -> (s: &SourceParseStatus)
        ensures
            *s == self.raw_status_of(),
    {
        &self.raw_status
    }

    pub fn dirty_blocks(&self) -> (d: &DirtyBlocks)
        ensures
            d@ == self.dirty_of(),
    {
        &self.dirty_blocks
    }

    pub fn save_state(&self) -> (s: &SaveState)
        ensures
            *s == self.save_state_of(),
    {
        &self.save_state
    }

    /// Whether edits exist that are not canonically saved.
    pub fn is_dirty(&self) -> (b: bool)
        ensures
            b == self.dirty(),
    {
        self.revision != self.saved_revision
    }

    /// Authoritative live Markdown body projected into every pane that
    /// references this session.
    pub fn body(&self) -> (b: &str)
        ensures
            b@ == self.body_of(),
    {
        self.body.as_str()
    }

    /// The stamp of the current revision.
    pub fn stamp(&self) -> (s: WorkStamp)
        ensures
            s == self.current_stamp(),
    {
        WorkStamp { generation: self.generation, revision: self.revision }
    }
}

} // verus!

verus! {

/// Larger UTF-16 offsets reach later character positions.
pub proof fn lemma_utf16_to_char_monotonic(s: Seq<char>, a: int, b: int)
    requires
        0 <= a <= b,
        utf16_to_char(s, a) is Some,
        utf16_to_char(s, b) is Some,
    ensures
        utf16_to_char(s, a)->0 <= utf16_to_char(s, b)->0,
    decreases s.len(),
{
    if a == 0 {
        lemma_utf16_to_char_nonneg(s, b);
    } else {
        lemma_utf16_to_char_monotonic(s.drop_first(), a - utf16_len(s[0]), b - utf16_len(s[0]));
    }
}

proof fn lemma_utf16_to_char_nonneg(s: Seq<char>, t: int)
    requires
        utf16_to_char(s, t) is Some,
    ensures
        0 <= utf16_to_char(s, t)->0 <= s.len(),
    decreases s.len(),
{
    if t != 0 {
        lemma_utf16_to_char_nonneg(s.drop_first(), t - utf16_len(s[0]));
    }
}

/// Character positions of an editor delta that replaces `removed` UTF-16
/// units at UTF-16 offset `position`.
pub open spec fn delta_positions(s: Seq<char>, position: int, removed: int) -> Option<(int, int)> {
    if position + removed > usize::MAX {
        None
    } else {
        match (utf16_to_char(s, position), utf16_to_char(s, position + removed)) {
            (Some(a), Some(b)) => Some((a, b)),
            _ => None,
        }
    }
}

/// Word-count context around characters `ks..ke`: two characters on each
/// side, clamped to the text.
pub open spec fn context_bounds(n: int, ks: int, ke: int) -> (int, int) {
    (if ks >= 2 {
        ks - 2
    } else {
        0
    }, if ke + 2 <= n {
        ke + 2
    } else {
        n
    })
}

/// `s` with characters `ks..ke` replaced by `inserted`.
pub open spec fn spliced(s: Seq<char>, ks: int, ke: int, inserted: Seq<char>) -> Seq<char> {
    s.take(ks) + inserted + s.skip(ke)
}

/// An edit keeps the text before it and after it, and holds exactly the
/// inserted text in between.
pub proof fn lemma_spliced_keeps_surroundings(s: Seq<char>, ks: int, ke: int, inserted: Seq<char>)
    requires
        0 <= ks <= ke <= s.len(),
    ensures
        ({
            let t = spliced(s, ks, ke, inserted);
            &&& t.len() == s.len() - (ke - ks) + inserted.len()
            &&& t.take(ks) == s.take(ks)
            &&& t.subrange(ks, ks + inserted.len()) == inserted
            &&& t.skip(ks + inserted.len()) == s.skip(ke)
        }),
{
    let t = spliced(s, ks, ke, inserted);
    assert(t.take(ks) =~= s.take(ks));
    assert(t.subrange(ks, ks + inserted.len()) =~= inserted);
    assert(t.skip(ks + inserted.len()) =~= s.skip(ke));
}

/// Count adjustment of replacing characters `ks..ke` of `s` by `inserted`:
/// words are recounted only in the bounded context around the change, and
/// characters change by the inserted minus the removed count.
pub open spec fn text_delta_counts(s: Seq<char>, ks: int, ke: int, inserted: Seq<char>) -> TextCountDelta {
    let bounds = context_bounds(s.len() as int, ks, ke);
    let cs = bounds.0;
    let ce = bounds.1;
    let t = spliced(s, ks, ke, inserted);
    let old_words = crate::text::word_count(s.subrange(cs, ce));
    let new_words = crate::text::word_count(t.subrange(cs, ks + inserted.len() + (ce - ke)));
    TextCountDelta {
        words: signed_delta(new_words as int, old_words as int) as i64,
        characters: signed_delta(inserted.len() as int, ke - ks) as i64,
    }
}

proof fn lemma_context_split(
    p1: Seq<char>,
    p2: Seq<char>,
    y: Seq<char>,
    s2: Seq<char>,
    s3: Seq<char>,
)
    requires
        crate::text::ends_in_word(p1 + p2) == crate::text::ends_in_word(p2),
        s3.len() > 0 ==> s2.len() == 2 && (!crate::text::is_word_joiner(s2[0])
            || !crate::text::is_word_joiner(s2[1])),
    ensures
        crate::text::word_count(p1 + p2 + y + s2 + s3) == crate::text::word_count(p2 + y + s2) + (
        crate::text::word_count(p1 + p2) - crate::text::word_count(p2)) + if s3.len() == 0 {
            0
        } else {
            crate::text::word_count(s2 + s3) - crate::text::word_count(s2)
        },
{
    crate::text::lemma_word_state_extends(p1 + p2, p2, y + s2);
    assert((p1 + p2) + (y + s2) =~= p1 + p2 + y + s2);
    assert(p2 + (y + s2) =~= p2 + y + s2);
    if s3.len() == 0 {
        assert(p1 + p2 + y + s2 + s3 =~= p1 + p2 + y + s2);
    } else {
        let a = p1 + p2 + y + s2;
        if !crate::text::is_word_joiner(s2[0]) {
            crate::text::lemma_word_state_decided(p1 + p2 + y, s2, 0);
        } else {
            crate::text::lemma_word_state_decided(p1 + p2 + y, s2, 1);
        }
        crate::text::lemma_word_state_extends(a, s2, s3);
    }
}

/// The words of `s` outside the recounted context `cs..ce` that an edit of
/// `ks..ke` inside it cannot change.
spec fn words_outside(s: Seq<char>, cs: int, ks: int, ke: int, ce: int) -> int {
    crate::text::word_count(s.take(ks)) - crate::text::word_count(s.subrange(cs, ks)) + if ce
        == s.len() {
        0
    } else {
        crate::text::word_count(s.subrange(ke, s.len() as int)) - crate::text::word_count(
            s.subrange(ke, ce),
        )
    }
}

proof fn lemma_recount_in_context(s: Seq<char>, ks: int, ke: int, y: Seq<char>)
    requires
        0 <= ks <= ke <= s.len(),
        ks > 2 ==> !(crate::text::is_word_joiner(s[ks - 2]) && crate::text::is_word_joiner(s[ks - 1])),
        ke + 2 < s.len() ==> !(crate::text::is_word_joiner(s[ke]) && crate::text::is_word_joiner(
            s[ke + 1],
        )),
    ensures
        ({
            let cs = context_bounds(s.len() as int, ks, ke).0;
            let ce = context_bounds(s.len() as int, ks, ke).1;
            crate::text::word_count(s.take(ks) + y + s.skip(ke)) == crate::text::word_count(
                s.subrange(cs, ks) + y + s.subrange(ke, ce),
            ) + words_outside(s, cs, ks, ke, ce)
        }),
{
    let cs = context_bounds(s.len() as int, ks, ke).0;
    let ce = context_bounds(s.len() as int, ks, ke).1;
    let p1 = s.take(cs);
    let p2 = s.subrange(cs, ks);
    let s2 = s.subrange(ke, ce);
    let s3 = s.skip(ce);
    assert(p1 + p2 =~= s.take(ks));
    assert(s2 + s3 =~= s.subrange(ke, s.len() as int));
    assert(crate::text::ends_in_word(p1 + p2) == crate::text::ends_in_word(p2)) by {
        if cs > 0 {
            if !crate::text::is_word_joiner(p2[0]) {
                crate::text::lemma_word_state_decided(p1, p2, 0);
            } else {
                crate::text::lemma_word_state_decided(p1, p2, 1);
            }
        } else {
            assert(p1 + p2 =~= p2);
        }
    }
    if s3.len() > 0 {
        assert(s2[0] == s[ke] && s2[1] == s[ke + 1]);
    }
    lemma_context_split(p1, p2, y, s2, s3);
    assert(s.take(ks) + y + s.skip(ke) =~= p1 + p2 + y + s2 + s3);
}

/// The word change reported for an edit is the true change of the whole
/// document's word count, although only two characters around the edit
/// are recounted, whenever the edit does not border two word joiners in a
/// row (on either side, beyond the start or end of the text); the character
/// change is the inserted minus the removed count.
pub proof fn lemma_text_delta_counts_exact(s: Seq<char>, ks: int, ke: int, inserted: Seq<char>)
    requires
        0 <= ks <= ke <= s.len(),
        s.len() + inserted.len() <= i64::MAX,
        ks > 2 ==> !(crate::text::is_word_joiner(s[ks - 2]) && crate::text::is_word_joiner(s[ks - 1])),
        ke + 2 < s.len() ==> !(crate::text::is_word_joiner(s[ke]) && crate::text::is_word_joiner(
            s[ke + 1],
        )),
    ensures
        text_delta_counts(s, ks, ke, inserted).words == crate::text::word_count(
            spliced(s, ks, ke, inserted),
        ) - crate::text::word_count(s),
        text_delta_counts(s, ks, ke, inserted).characters == inserted.len() - (ke - ks),
{
    let cs = context_bounds(s.len() as int, ks, ke).0;
    let ce = context_bounds(s.len() as int, ks, ke).1;
    let t = spliced(s, ks, ke, inserted);
    let old_ctx = s.subrange(cs, ce);
    let new_ctx = t.subrange(cs, ks + inserted.len() + (ce - ke));
    lemma_recount_unedited(s, ks, ke);
    lemma_recount_edited(s, ks, ke, inserted);
    let a = crate::text::word_count(old_ctx);
    let b = crate::text::word_count(new_ctx);
    assert(a <= s.len()) by {
        crate::text::lemma_word_count_bound(old_ctx);
    }
    assert(b <= s.len() + inserted.len()) by {
        crate::text::lemma_word_count_bound(new_ctx);
    }
}

proof fn lemma_recount_unedited(s: Seq<char>, ks: int, ke: int)
    requires
        0 <= ks <= ke <= s.len(),
        ks > 2 ==> !(crate::text::is_word_joiner(s[ks - 2]) && crate::text::is_word_joiner(s[ks - 1])),
        ke + 2 < s.len() ==> !(crate::text::is_word_joiner(s[ke]) && crate::text::is_word_joiner(
            s[ke + 1],
        )),
    ensures
        ({
            let cs = context_bounds(s.len() as int, ks, ke).0;
            let ce = context_bounds(s.len() as int, ks, ke).1;
            crate::text::word_count(s) == crate::text::word_count(s.subrange(cs, ce)) + words_outside(
                s,
                cs,
                ks,
                ke,
                ce,
            )
        }),
{
    let cs = context_bounds(s.len() as int, ks, ke).0;
    let ce = context_bounds(s.len() as int, ks, ke).1;
    let m = s.subrange(ks, ke);
    lemma_recount_in_context(s, ks, ke, m);
    assert(s.take(ks) + m + s.skip(ke) =~= s);
    assert(s.subrange(cs, ks) + m + s.subrange(ke, ce) =~= s.subrange(cs, ce));
}

proof fn lemma_recount_edited(s: Seq<char>, ks: int, ke: int, inserted: Seq<char>)
    requires
        0 <= ks <= ke <= s.len(),
        ks > 2 ==> !(crate::text::is_word_joiner(s[ks - 2]) && crate::text::is_word_joiner(s[ks - 1])),
        ke + 2 < s.len() ==> !(crate::text::is_word_joiner(s[ke]) && crate::text::is_word_joiner(
            s[ke + 1],
        )),
    ensures
        ({
            let cs = context_bounds(s.len() as int, ks, ke).0;
            let ce = context_bounds(s.len() as int, ks, ke).1;
            let t = spliced(s, ks, ke, inserted);
            crate::text::word_count(t) == crate::text::word_count(
                t.subrange(cs, ks + inserted.len() + (ce - ke)),
            ) + words_outside(s, cs, ks, ke, ce)
        }),
{
    let cs = context_bounds(s.len() as int, ks, ke).0;
    let ce = context_bounds(s.len() as int, ks, ke).1;
    let t = spliced(s, ks, ke, inserted);
    lemma_recount_in_context(s, ks, ke, inserted);
    assert(s.subrange(cs, ks) + inserted + s.subrange(ke, ce) =~= t.subrange(
        cs,
        ks + inserted.len() + (ce - ke),
    ));
}

/// The lower end of a range in either orientation.
pub open spec fn range_low(start: int, end: int) -> int {
    if start <= end {
        start
    } else {
        end
    }
}

/// `x + 1`, stopping at the largest block index.
pub open spec fn saturating_successor(x: int) -> int {
    if x < usize::MAX {
        x + 1
    } else {
        x
    }
}

/// The upper end of a range in either orientation, widened to cover at
/// least one block (the widening saturates at the largest block index).
pub open spec fn range_high(start: int, end: int) -> int {
    let lo = range_low(start, end);
    let hi = if start <= end {
        end
    } else {
        start
    };
    if hi > saturating_successor(lo) {
        hi
    } else {
        saturating_successor(lo)
    }
}

/// The exclusive end of an edited block range, widened to cover at least
/// the first block (the widening saturates at the largest block index).
pub open spec fn widened_end(first: int, last: int) -> int {
    if last > saturating_successor(first) {
        last
    } else {
        saturating_successor(first)
    }
}

/// A counter advanced by one, stopping at its largest value.
pub open spec fn saturating_next(x: u64) -> u64 {
    if x < u64::MAX {
        (x + 1) as u64
    } else {
        u64::MAX
    }
}

impl DocumentSession {
    /// `after` is `before` with one more edit recorded: the revision advanced
    /// by one, blocks `lo..hi` marked dirty, the edit time noted, and the
    /// state dirty.
    pub open spec fn edit_recorded(before: Self, after: Self, lo: int, hi: int, now: u64) -> bool {
        &&& after.revision_of() == before.revision_of() + 1
        &&& forall|x: int|
            ranges_cover(after.dirty_of(), x) <==> (ranges_cover(before.dirty_of(), x) || (lo <= x
                < hi))
        &&& after.last_edit_of() == Some(now)
        &&& after.save_state_of() == SaveState::Dirty
    }

    /// Fields no edit changes: identity, persistence progress, and
    /// configuration.
    pub open spec fn same_persistence(a: Self, b: Self) -> bool {
        &&& a.id_of() == b.id_of()
        &&& a.generation_of() == b.generation_of()
        &&& a.saved_of() == b.saved_of()
        &&& a.journaled_of() == b.journaled_of()
        &&& a.disk_fingerprint_of() == b.disk_fingerprint_of()
        &&& a.config_of() == b.config_of()
    }

    /// Fields only an edit's bookkeeping changes.
    pub open spec fn same_edit_bookkeeping(a: Self, b: Self) -> bool {
        &&& a.revision_of() == b.revision_of()
        &&& a.dirty_of() == b.dirty_of()
        &&& a.last_edit_of() == b.last_edit_of()
        &&& a.save_state_of() == b.save_state_of()
    }

    /// Fields only text editing and mode switches change.
    pub open spec fn same_text(a: Self, b: Self) -> bool {
        &&& a.body_of() == b.body_of()
        &&& a.mode_of() == b.mode_of()
        &&& a.raw_buffer_of() == b.raw_buffer_of()
        &&& a.undo_epoch_of() == b.undo_epoch_of()
    }

    /// Fields only parsing changes.
    pub open spec fn same_parse(a: Self, b: Self) -> bool {
        &&& a.semantic_of() == b.semantic_of()
        &&& a.semantic_dirty_of() == b.semantic_dirty_of()
        &&& a.raw_status_of() == b.raw_status_of()
    }

    /// `b` is `a` with at most its save state changed.
    pub open spec fn same_but_save_state(a: Self, b: Self) -> bool {
        &&& Self::same_persistence(a, b)
        &&& Self::same_text(a, b)
        &&& Self::same_parse(a, b)
        &&& a.revision_of() == b.revision_of()
        &&& a.dirty_of() == b.dirty_of()
        &&& a.last_edit_of() == b.last_edit_of()
    }

    /// The parse error a refresh of `before` meets: only a session whose
    /// semantic document is stale parses, and only a failed parse fails.
    pub open spec fn refresh_error(before: Self, reparsed: Option<Result<ParsedBody, String>>) -> Option<
        Seq<char>,
    > {
        if before.semantic_dirty_of() {
            match reparsed {
                Some(Err(m)) => Some(m@),
                _ => None,
            }
        } else {
            None
        }
    }

    /// The semantic document after a successful refresh of `before`.
    pub open spec fn refreshed_semantic(before: Self, reparsed: Option<Result<ParsedBody, String>>) -> ParsedBody {
        if before.semantic_dirty_of() {
            match reparsed {
                Some(Ok(p)) => p,
                _ => before.semantic_of(),
            }
        } else {
            before.semantic_of()
        }
    }

    /// `status` is the source status after a successful refresh of `before`:
    /// the one its diagnostics give for a new parse, else the old one.
    pub open spec fn refreshed_status(
        before: Self,
        reparsed: Option<Result<ParsedBody, String>>,
        status: SourceParseStatus,
    ) -> bool {
        if before.semantic_dirty_of() {
            reparsed matches Some(Ok(p)) && status_of_parse(status, p.diagnostics@)
        } else {
            status == before.raw_status_of()
        }
    }

    /// `after` holds the parse state of a successful refresh of `before`:
    /// the same parse when it was current, otherwise `reparsed` with the
    /// source status its diagnostics give.
    pub open spec fn parse_refreshed(before: Self, reparsed: Option<Result<ParsedBody, String>>, after: Self) -> bool {
        &&& !after.semantic_dirty_of()
        &&& after.semantic_of() == Self::refreshed_semantic(before, reparsed)
        &&& Self::refreshed_status(before, reparsed, after.raw_status_of())
    }

    /// `after` records that the live text of `before` failed to parse with
    /// message `m`: the text stays authoritative and stale, the source is
    /// marked invalid, and the save state explains that it cannot replace the
    /// document yet.
    pub open spec fn refresh_failed(before: Self, after: Self, m: Seq<char>) -> bool {
        &&& after.semantic_of() == before.semantic_of()
        &&& after.semantic_dirty_of()
        &&& after.raw_status_of() matches SourceParseStatus::Invalid { message } && message@ == m
        &&& after.save_state_of() matches SaveState::Error(t) && t@ == unsaveable_message(m)
        &&& Self::same_persistence(before, after)
        &&& Self::same_text(before, after)
        &&& after.revision_of() == before.revision_of()
        &&& after.dirty_of() == before.dirty_of()
        &&& after.last_edit_of() == before.last_edit_of()
    }

    /// Whether an operation that needs the semantic document must be handed
    /// a fresh parse of the live body.
    pub fn needs_reparse(&self) -> (b: bool)
        ensures
            b == self.semantic_dirty_of(),
    {
        self.semantic_dirty
    }

    /// Brings the semantic document up to date with the live body, given the
    /// parse of that body when it is stale.
    fn refresh_semantic(&mut self, reparsed: Option<Result<ParsedBody, String>>) -> (r: Result<
        (),
        DocumentLifecycleError,
    >)
        requires
            old(self).wf(),
            old(self).semantic_dirty_of() ==> reparsed is Some,
        ensures
            final(self).wf(),
            match Self::refresh_error(*old(self), reparsed) {
                Some(m) => (r matches Err(DocumentLifecycleError::InvalidRawSource(e)) && e@ == m)
                    && Self::refresh_failed(*old(self), *final(self), m),
                None => r is Ok && Self::parse_refreshed(*old(self), reparsed, *final(self))
                    && Self::same_persistence(*old(self), *final(self)) && Self::same_text(
                    *old(self),
                    *final(self),
                ) && Self::same_edit_bookkeeping(*old(self), *final(self)),
            },
    {
        if !self.semantic_dirty {
            return Ok(());
        }
        match reparsed {
            Some(Ok(document)) => {
                self.raw_status = source_parse_status(&document);
                self.semantic = document;
                self.semantic_dirty = false;
                Ok(())
            },
            Some(Err(message)) => {
                self.raw_status = SourceParseStatus::Invalid { message: copy_string(&message) };
                self.save_state = unsaveable_state(&message);
                Err(DocumentLifecycleError::InvalidRawSource(message))
            },
            None => Err(DocumentLifecycleError::InvalidRawSource(String::new())),
        }
    }

    /// Whether an unforced journal is due at `now`: unjournaled edits exist
    /// and the debounce has passed since the last one.
    pub open spec fn journal_due_at(&self, now: u64) -> bool {
        &&& self.dirty()
        &&& self.journaled_of() < self.revision_of()
        &&& self.last_edit_of() matches Some(edited) && (if now >= edited {
            now - edited
        } else {
            0
        }) >= self.config_of().journal_debounce_millis
    }

    /// Whether an unforced journal is due at `now` (milliseconds on the same
    /// monotonic clock as the edit times).
    pub fn journal_due(&self, now: u64) -> (b: bool)
        ensures
            b == self.journal_due_at(now),
    {
        if self.revision == self.saved_revision || self.journaled_revision >= self.revision {
            return false;
        }
        match self.last_edit {
            Some(edited) => now.saturating_sub(edited) >= self.config.journal_debounce_millis,
            None => false,
        }
    }

    /// Creates immutable journal work for the current revision when one is
    /// needed; `force` skips the debounce (focus loss).
    pub fn prepare_journal(&mut self, now: u64, force: bool) -> (r: Option<JournalRequest>)
        requires
            old(self).wf(),
        ensures
            final(self).wf(),
            (!old(self).dirty() || old(self).journaled_of() >= old(self).revision_of() || (!force
                && !old(self).journal_due_at(now))) ==> (r is None && *final(self) == *old(self)),
            (old(self).dirty() && old(self).journaled_of() < old(self).revision_of() && (force
                || old(self).journal_due_at(now))) ==> (r matches Some(req) && req.stamp == old(self).current_stamp() && req.document_id == old(self).id_of() && req.base_fingerprint == old(self).disk_fingerprint_of() && req.body@ == old(self).body_of() && final(self).save_state_of()
                == SaveState::Journaling && Self::same_but_save_state(*old(self), *final(self))),
    {
        if self.revision == self.saved_revision || self.journaled_revision >= self.revision {
            return None;
        }
        if !force && !self.journal_due(now) {
            return None;
        }
        let request = JournalRequest {
            stamp: self.stamp(),
            document_id: self.document_id,
            base_fingerprint: self.disk_fingerprint,
            body: copy_string(&self.body),
        };
        self.save_state = SaveState::Journaling;
        Some(request)
    }

    /// Applies the outcome of journal work. Work stamped for another
    /// generation or revision is stale and changes nothing.
    pub fn acknowledge_journal(&mut self, stamp: WorkStamp, outcome: Result<(), String>) -> (d:
        CompletionDisposition)
        requires
            old(self).wf(),
        ensures
            final(self).wf(),
            stamp != old(self).current_stamp() ==> (d == CompletionDisposition::Stale && *final(self)
                == *old(self)),
            stamp == old(self).current_stamp() ==> d == CompletionDisposition::Applied,
            stamp == old(self).current_stamp() && outcome is Ok ==> (final(self).journaled_of()
                == stamp.revision && final(self).save_state_of() == SaveState::Dirty && Self::same_text(
                *old(self),
                *final(self),
            ) && Self::same_parse(*old(self), *final(self)) && Self::same_edit_bookkeeping_but_state(
                *old(self),
                *final(self),
            ) && final(self).id_of() == old(self).id_of() && final(self).generation_of() == old(self).generation_of() && final(self).saved_of() == old(self).saved_of()
                && final(self).disk_fingerprint_of() == old(self).disk_fingerprint_of()
                && final(self).config_of() == old(self).config_of()),
            stamp == old(self).current_stamp() && outcome is Err ==> (final(self).save_state_of()
                matches SaveState::Error(e) && e@ == outcome->Err_0@ && Self::same_but_save_state(
                *old(self),
                *final(self),
            )),
    {
        if !stamp.is_current(self.generation, self.revision) {
            return CompletionDisposition::Stale;
        }
        match outcome {
            Ok(()) => {
                self.journaled_revision = stamp.revision;
                self.save_state = SaveState::Dirty;
                CompletionDisposition::Applied
            },
            Err(error) => {
                self.save_state = SaveState::Error(error);
                CompletionDisposition::Applied
            },
        }
    }

    /// Revision, dirty ranges and last edit time agree.
    pub open spec fn same_edit_bookkeeping_but_state(a: Self, b: Self) -> bool {
        &&& a.revision_of() == b.revision_of()
        &&& a.dirty_of() == b.dirty_of()
        &&& a.last_edit_of() == b.last_edit_of()
    }

    /// The canonical-save work `req` for the live revision of `s`.
    pub open spec fn save_request_for(s: Self, req: CanonicalSaveRequest) -> bool {
        &&& req.stamp == s.current_stamp()
        &&& req.document_id == s.id_of()
        &&& req.body@ == s.body_of()
        &&& req.expected_disk_fingerprint == s.disk_fingerprint_of()
        &&& req.rotating_backups == s.config_of().rotating_backups
    }

    /// Creates canonical-save work for a dirty session. The semantic document
    /// is refreshed first (`reparsed` is the parse of the live body, needed
    /// when it is stale); invalid source vetoes the save, and so does a
    /// revision that is not journaled yet.
    pub fn prepare_canonical_save(&mut self, reparsed: Option<Result<ParsedBody, String>>) -> (r: Result<
        Option<CanonicalSaveRequest>,
        DocumentLifecycleError,
    >)
        requires
            old(self).wf(),
            old(self).semantic_dirty_of() ==> reparsed is Some,
        ensures
            final(self).wf(),
            r matches Ok(Some(req)) ==> req.stamp.revision == old(self).journaled_of(),
            !old(self).dirty() ==> (r matches Ok(None) && *final(self) == *old(self)),
            old(self).dirty() && Self::refresh_error(*old(self), reparsed) is Some ==> ((r matches Err(
                DocumentLifecycleError::InvalidRawSource(e),
            ) && e@ == Self::refresh_error(*old(self), reparsed)->0) && Self::refresh_failed(
                *old(self),
                *final(self),
                Self::refresh_error(*old(self), reparsed)->0,
            )),
            old(self).dirty() && Self::refresh_error(*old(self), reparsed) is None ==> (Self::parse_refreshed(
                *old(self),
                reparsed,
                *final(self),
            ) && Self::same_persistence(*old(self), *final(self)) && Self::same_text(
                *old(self),
                *final(self),
            ) && Self::same_edit_bookkeeping_but_state(*old(self), *final(self)) && (match (final(self).raw_status_of()) {
                SourceParseStatus::Invalid { message } => (r matches Err(
                    DocumentLifecycleError::InvalidRawSource(e),
                ) && e@ == message@) && (final(self).save_state_of() matches SaveState::Error(t)
                    && t@ == unsaveable_message(message@)),
                _ => if old(self).journaled_of() < old(self).revision_of() {
                    r matches Err(DocumentLifecycleError::JournalRequired(v)) && v == old(self).revision_of() && final(self).save_state_of() == old(self).save_state_of()
                } else {
                    r matches Ok(Some(req)) && Self::save_request_for(*old(self), req) && final(self).save_state_of() == SaveState::Saving
                },
            })),
    {
        if self.revision == self.saved_revision {
            return Ok(None);
        }
        self.refresh_semantic(reparsed)?;
        if let SourceParseStatus::Invalid { message } = &self.raw_status {
            let message = copy_string(message);
            self.save_state = unsaveable_state(&message);
            return Err(DocumentLifecycleError::InvalidRawSource(message));
        }
        if self.journaled_revision < self.revision {
            return Err(DocumentLifecycleError::JournalRequired(self.revision));
        }
        let request = CanonicalSaveRequest {
            stamp: self.stamp(),
            document_id: self.document_id,
            body: copy_string(&self.body),
            expected_disk_fingerprint: self.disk_fingerprint,
            rotating_backups: self.config.rotating_backups,
        };
        self.save_state = SaveState::Saving;
        Ok(Some(request))
    }

    /// Applies the outcome of canonical-save work. A current success makes
    /// the saved revision canonical: nothing is dirty and the disk
    /// fingerprint is the one written. Stale work changes nothing.
    pub fn acknowledge_canonical_save(&mut self, stamp: WorkStamp, outcome: Result<ContentFingerprint, String>) -> (d:
        CompletionDisposition)
        requires
            old(self).wf(),
        ensures
            final(self).wf(),
            stamp != old(self).current_stamp() ==> (d == CompletionDisposition::Stale && *final(self)
                == *old(self)),
            stamp == old(self).current_stamp() ==> d == CompletionDisposition::Applied,
            stamp == old(self).current_stamp() && outcome is Ok ==> !final(self).dirty(),
            stamp == old(self).current_stamp() && outcome is Ok ==> (final(self).saved_of()
                == stamp.revision && final(self).journaled_of() == stamp.revision && final(self).disk_fingerprint_of() == outcome->Ok_0 && final(self).dirty_of().len() == 0 && final(self).last_edit_of() is None && final(self).save_state_of() == SaveState::Saved
                && final(self).revision_of() == old(self).revision_of() && final(self).id_of() == old(self).id_of() && final(self).generation_of() == old(self).generation_of() && final(self).config_of() == old(self).config_of() && Self::same_text(*old(self), *final(self))
                && Self::same_parse(*old(self), *final(self))),
            stamp == old(self).current_stamp() && outcome is Err ==> (final(self).save_state_of()
                matches SaveState::Error(e) && e@ == outcome->Err_0@ && Self::same_but_save_state(
                *old(self),
                *final(self),
            )),
    {
        if !stamp.is_current(self.generation, self.revision) {
            return CompletionDisposition::Stale;
        }
        match outcome {
            Ok(fingerprint) => {
                self.saved_revision = stamp.revision;
                self.journaled_revision = stamp.revision;
                self.disk_fingerprint = fingerprint;
                self.dirty_blocks.clear();
                self.last_edit = None;
                self.save_state = SaveState::Saved;
                CompletionDisposition::Applied
            },
            Err(error) => {
                self.save_state = SaveState::Error(error);
                CompletionDisposition::Applied
            },
        }
    }

    /// Focus-loss and clean-shutdown helper: forced journal work for unjournaled
    /// edits, and the matching canonical-save work when the live body parses.
    /// The caller executes and acknowledges the journal before the save.
    pub fn prepare_flush(&mut self, now: u64, reparsed: Option<Result<ParsedBody, String>>) -> (r: Option<
        (JournalRequest, Option<CanonicalSaveRequest>),
    >)
        requires
            old(self).wf(),
            old(self).semantic_dirty_of() ==> reparsed is Some,
        ensures
            final(self).wf(),
            (!old(self).dirty() || old(self).journaled_of() >= old(self).revision_of()) ==> (r is None
                && *final(self) == *old(self)),
            (old(self).dirty() && old(self).journaled_of() < old(self).revision_of()) ==> (r matches Some(
                (journal, save),
            ) && journal.stamp == old(self).current_stamp() && journal.document_id == old(self).id_of()
                && journal.base_fingerprint == old(self).disk_fingerprint_of() && journal.body@ == old(self).body_of() && Self::same_persistence(*old(self), *final(self)) && Self::same_text(
                *old(self),
                *final(self),
            ) && Self::same_edit_bookkeeping_but_state(*old(self), *final(self)) && (match Self::refresh_error(
                *old(self),
                reparsed,
            ) {
                Some(m) => save is None && Self::refresh_failed(*old(self), *final(self), m),
                None => (save matches Some(req) && Self::save_request_for(*old(self), req))
                    && Self::parse_refreshed(*old(self), reparsed, *final(self)) && final(self).save_state_of() == SaveState::Journaling,
            })),
    {
        let journal = match self.prepare_journal(now, true) {
            Some(journal) => journal,
            None => {
                return None;
            },
        };
        let semantic_valid = self.refresh_semantic(reparsed).is_ok();
        let save = if semantic_valid {
            Some(
                CanonicalSaveRequest {
                    stamp: journal.stamp,
                    document_id: self.document_id,
                    body: copy_string(&self.body),
                    expected_disk_fingerprint: self.disk_fingerprint,
                    rotating_backups: self.config.rotating_backups,
                },
            )
        } else {
            None
        };
        Some((journal, save))
    }

    /// Replaces the live body after an editor change, given its parse. A
    /// body that does not parse stays authoritative and is journaled; the
    /// semantic document then stays stale and canonical save is vetoed until
    /// the text parses.
    pub fn replace_body(
        &mut self,
        body: String,
        parsed: Result<ParsedBody, String>,
        first_block: usize,
        last_block_exclusive: usize,
        now: u64,
    ) -> (r: Result<u64, DocumentLifecycleError>)
        requires
            old(self).wf(),
            first_block < usize::MAX,
        ensures
            final(self).wf(),
            old(self).mode_of() == EditorMode::Source ==> (r matches Err(DocumentLifecycleError::WrongMode)
                && *final(self) == *old(self)),
            old(self).mode_of() == EditorMode::Wysiwyg && body@ == old(self).body_of() ==> (r == Ok::<
                u64,
                DocumentLifecycleError,
            >(old(self).revision_of()) && *final(self) == *old(self)),
            old(self).mode_of() == EditorMode::Wysiwyg && body@ != old(self).body_of() ==> (final(self).body_of()
                == body@ && final(self).mode_of() == old(self).mode_of() && final(self).raw_buffer_of()
                == old(self).raw_buffer_of() && final(self).undo_epoch_of() == old(self).undo_epoch_of()
                && Self::same_persistence(*old(self), *final(self)) && (match parsed {
                Ok(p) => final(self).semantic_of() == p && !final(self).semantic_dirty_of() && (match first_error(
                    p.diagnostics@,
                ) {
                    Some(i) => (final(self).raw_status_of() matches SourceParseStatus::Invalid { message }
                        && message@ == p.diagnostics@[i].message@),
                    None => final(self).raw_status_of() is NotInSourceMode,
                }),
                Err(m) => final(self).semantic_of() == old(self).semantic_of() && final(self).semantic_dirty_of()
                    && (final(self).raw_status_of() matches SourceParseStatus::Invalid { message } && message@
                    == m@),
            }) && Self::edit_outcome(
                *old(self),
                *final(self),
                r,
                first_block as int,
                widened_end(first_block as int, last_block_exclusive as int),
                now,
            )),
    {
        if self.mode != EditorMode::Wysiwyg {
            return Err(DocumentLifecycleError::WrongMode);
        }
        if body == self.body {
            return Ok(self.revision);
        }
        match parsed {
            Ok(document) => {
                let status = source_parse_status(&document);
                self.semantic = document;
                self.semantic_dirty = false;
                self.raw_status = match status {
                    SourceParseStatus::Invalid { message } => SourceParseStatus::Invalid { message },
                    _ => SourceParseStatus::NotInSourceMode,
                };
            },
            Err(message) => {
                self.raw_status = SourceParseStatus::Invalid { message };
                self.semantic_dirty = true;
            },
        }
        self.body = body;
        let end = if last_block_exclusive > first_block + 1 {
            last_block_exclusive
        } else {
            first_block + 1
        };
        self.record_edit(first_block..end, now)
    }

    /// The revision outcome of recording an edit of blocks `lo..hi` at
    /// `now`: an exhausted revision counter refuses it and leaves the edit
    /// bookkeeping alone; otherwise the new revision is returned.
    pub open spec fn edit_outcome(
        before: Self,
        after: Self,
        r: Result<u64, DocumentLifecycleError>,
        lo: int,
        hi: int,
        now: u64,
    ) -> bool {
        if before.revision_of() == u64::MAX {
            r matches Err(DocumentLifecycleError::RevisionOverflow) && Self::same_edit_bookkeeping(
                before,
                after,
            )
        } else {
            r == Ok::<u64, DocumentLifecycleError>(after.revision_of()) && Self::edit_recorded(
                before,
                after,
                lo,
                hi,
                now,
            )
        }
    }

    /// Applies a bounded UTF-16 editor text delta (replace `removed_utf16`
    /// code units at `position_utf16` by `inserted`) without parsing the
    /// document, and reports the exact word and character adjustment, with
    /// words recounted only in a small context around the change.
    pub fn apply_text_delta(
        &mut self,
        position_utf16: usize,
        removed_utf16: usize,
        inserted: &str,
        first_block: usize,
        last_block_exclusive: usize,
        now: u64,
    ) -> (r: Result<AppliedTextDelta, DocumentLifecycleError>)
        requires
            old(self).wf(),
        ensures
            final(self).wf(),
            old(self).mode_of() == EditorMode::Source ==> (r matches Err(DocumentLifecycleError::WrongMode)
                && *final(self) == *old(self)),
            old(self).mode_of() == EditorMode::Wysiwyg && delta_positions(
                old(self).body_of(),
                position_utf16 as int,
                removed_utf16 as int,
            ) is None ==> (r matches Err(DocumentLifecycleError::InvalidTextDelta) && *final(self) == *old(
                self)),
            old(self).mode_of() == EditorMode::Wysiwyg && delta_positions(
                old(self).body_of(),
                position_utf16 as int,
                removed_utf16 as int,
            ) is Some ==> ({
                let positions = delta_positions(
                    old(self).body_of(),
                    position_utf16 as int,
                    removed_utf16 as int,
                )->0;
                let ks = positions.0;
                let ke = positions.1;
                &&& final(self).body_of() == spliced(old(self).body_of(), ks, ke, inserted@)
                &&& final(self).semantic_dirty_of()
                &&& final(self).raw_status_of() is NotInSourceMode
                &&& final(self).semantic_of() == old(self).semantic_of()
                &&& final(self).mode_of() == old(self).mode_of()
                &&& final(self).raw_buffer_of() == old(self).raw_buffer_of()
                &&& final(self).undo_epoch_of() == old(self).undo_epoch_of()
                &&& Self::same_persistence(*old(self), *final(self))
                &&& if old(self).revision_of() == u64::MAX {
                    r matches Err(DocumentLifecycleError::RevisionOverflow) && Self::same_edit_bookkeeping(
                        *old(self),
                        *final(self),
                    )
                } else {
                    r == Ok::<AppliedTextDelta, DocumentLifecycleError>(
                        AppliedTextDelta {
                            revision: final(self).revision_of(),
                            counts: text_delta_counts(old(self).body_of(), ks, ke, inserted@),
                        },
                    ) && Self::edit_recorded(
                        *old(self),
                        *final(self),
                        first_block as int,
                        widened_end(first_block as int, last_block_exclusive as int),
                        now,
                    )
                }
            }),
    {
        if self.mode != EditorMode::Wysiwyg {
            return Err(DocumentLifecycleError::WrongMode);
        }
        let chars = chars_of(self.body.as_str());
        let ks = match utf16_offset_to_char(&chars, position_utf16) {
            Some(k) => k,
            None => {
                return Err(DocumentLifecycleError::InvalidTextDelta);
            },
        };
        let end_utf16 = match position_utf16.checked_add(removed_utf16) {
            Some(e) => e,
            None => {
                return Err(DocumentLifecycleError::InvalidTextDelta);
            },
        };
        let ke = match utf16_offset_to_char(&chars, end_utf16) {
            Some(k) => k,
            None => {
                return Err(DocumentLifecycleError::InvalidTextDelta);
            },
        };
        proof {
            lemma_utf16_to_char_monotonic(chars@, position_utf16 as int, end_utf16 as int);
            lemma_utf16_to_char_nonneg(chars@, end_utf16 as int);
        }
        let ghost before = self.body@;
        let n = chars.len();
        let context_start = if ks >= 2 {
            ks - 2
        } else {
            0
        };
        let context_end = if n - ke >= 2 {
            ke + 2
        } else {
            n
        };
        let old_context = string_from_chars(&slice_chars(&chars, context_start, context_end));
        let old_words = text_statistics(old_context.as_str()).words;
        let mut inserted_chars = chars_of(inserted);
        let inserted_count = inserted_chars.len();
        let mut next = slice_chars(&chars, 0, ks);
        next.append(&mut inserted_chars);
        let mut tail = slice_chars(&chars, ke, n);
        next.append(&mut tail);
        let next_len = next.len();
        proof {
            assert(next@ =~= spliced(before, ks as int, ke as int, inserted@));
            assert(next_len == ks + inserted_count + (n - ke));
        }
        let new_context_end = ks + inserted_count + (context_end - ke);
        let new_context = string_from_chars(&slice_chars(&next, context_start, new_context_end));
        let new_words = text_statistics(new_context.as_str()).words;
        self.body = string_from_chars(&next);
        self.semantic_dirty = true;
        self.raw_status = SourceParseStatus::NotInSourceMode;
        let widened = first_block.saturating_add(1);
        let end = if last_block_exclusive > widened {
            last_block_exclusive
        } else {
            widened
        };
        let revision = self.record_edit(first_block..end, now)?;
        Ok(
            AppliedTextDelta {
                revision,
                counts: TextCountDelta {
                    words: signed_difference(new_words, old_words),
                    characters: signed_difference(inserted_count as u64, (ke - ks) as u64),
                },
            },
        )
    }

    /// The outcome of a block edit of `before` at block `index`, where
    /// `edited` is what the block operation gives on the refreshed semantic
    /// document: wrong mode and a failed refresh refuse it; a refused block
    /// operation keeps the refresh; otherwise the edited document becomes the
    /// semantic document and its serialization the live body.
    pub open spec fn block_edit_outcome(
        before: Self,
        after: Self,
        r: Result<u64, DocumentLifecycleError>,
        index: usize,
        reparsed: Option<Result<ParsedBody, String>>,
        edited: Result<ParsedBody, String>,
        now: u64,
    ) -> bool {
        if before.mode_of() == EditorMode::Source {
            r matches Err(DocumentLifecycleError::WrongMode) && after == before
        } else {
            match Self::refresh_error(before, reparsed) {
                Some(m) => (r matches Err(DocumentLifecycleError::InvalidRawSource(e)) && e@ == m)
                    && Self::refresh_failed(before, after, m),
                None => match edited {
                    Err(m) => (r matches Err(DocumentLifecycleError::Markdown(e)) && e@ == m@)
                        && Self::parse_refreshed(before, reparsed, after) && Self::same_persistence(
                        before,
                        after,
                    ) && Self::same_text(before, after) && Self::same_edit_bookkeeping(before, after),
                    Ok(p) => {
                        &&& after.semantic_of() == p
                        &&& !after.semantic_dirty_of()
                        &&& after.body_of() == p.serialized@
                        &&& Self::refreshed_status(before, reparsed, after.raw_status_of())
                        &&& after.mode_of() == before.mode_of()
                        &&& after.raw_buffer_of() == before.raw_buffer_of()
                        &&& after.undo_epoch_of() == before.undo_epoch_of()
                        &&& Self::same_persistence(before, after)
                        &&& Self::edit_outcome(before, after, r, index as int, index + 1, now)
                    },
                },
            }
        }
    }

    fn edit_block(
        &mut self,
        index: usize,
        reparsed: Option<Result<ParsedBody, String>>,
        edited: Result<ParsedBody, String>,
        now: u64,
    ) -> (r: Result<u64, DocumentLifecycleError>)
        requires
            old(self).wf(),
            old(self).semantic_dirty_of() ==> reparsed is Some,
            index < usize::MAX,
        ensures
            final(self).wf(),
            Self::block_edit_outcome(*old(self), *final(self), r, index, reparsed, edited, now),
    {
        if self.mode != EditorMode::Wysiwyg {
            return Err(DocumentLifecycleError::WrongMode);
        }
        self.refresh_semantic(reparsed)?;
        match edited {
            Ok(document) => {
                self.body = copy_string(&document.serialized);
                self.semantic = document;
                self.semantic_dirty = false;
                self.record_edit(index..index + 1, now)
            },
            Err(message) => Err(DocumentLifecycleError::Markdown(message)),
        }
    }

    /// Replaces block `index`; `edited` is the block replacement applied to
    /// the refreshed semantic document.
    pub fn replace_block(
        &mut self,
        index: usize,
        reparsed: Option<Result<ParsedBody, String>>,
        edited: Result<ParsedBody, String>,
        now: u64,
    ) -> (r: Result<u64, DocumentLifecycleError>)
        requires
            old(self).wf(),
            old(self).semantic_dirty_of() ==> reparsed is Some,
            index < usize::MAX,
        ensures
            final(self).wf(),
            Self::block_edit_outcome(*old(self), *final(self), r, index, reparsed, edited, now),
    {
        self.edit_block(index, reparsed, edited, now)
    }

    /// Inserts a block at `index`; `edited` is the insertion applied to the
    /// refreshed semantic document.
    pub fn insert_block(
        &mut self,
        index: usize,
        reparsed: Option<Result<ParsedBody, String>>,
        edited: Result<ParsedBody, String>,
        now: u64,
    ) -> (r: Result<u64, DocumentLifecycleError>)
        requires
            old(self).wf(),
            old(self).semantic_dirty_of() ==> reparsed is Some,
            index < usize::MAX,
        ensures
            final(self).wf(),
            Self::block_edit_outcome(*old(self), *final(self), r, index, reparsed, edited, now),
    {
        self.edit_block(index, reparsed, edited, now)
    }

    /// Removes block `index`; `edited` is the removal applied to the
    /// refreshed semantic document.
    pub fn remove_block(
        &mut self,
        index: usize,
        reparsed: Option<Result<ParsedBody, String>>,
        edited: Result<ParsedBody, String>,
        now: u64,
    ) -> (r: Result<u64, DocumentLifecycleError>)
        requires
            old(self).wf(),
            old(self).semantic_dirty_of() ==> reparsed is Some,
            index < usize::MAX,
        ensures
            final(self).wf(),
            Self::block_edit_outcome(*old(self), *final(self), r, index, reparsed, edited, now),
    {
        self.edit_block(index, reparsed, edited, now)
    }

    /// Switches to source mode with the serialization of the refreshed
    /// semantic document as the raw buffer, and returns that buffer.
    pub fn enter_source_mode(&mut self, reparsed: Option<Result<ParsedBody, String>>) -> (r: Result<
        &str,
        DocumentLifecycleError,
    >)
        requires
            old(self).wf(),
            old(self).semantic_dirty_of() ==> reparsed is Some,
        ensures
            final(self).wf(),
            old(self).mode_of() == EditorMode::Source ==> (r matches Err(DocumentLifecycleError::WrongMode)
                && *final(self) == *old(self)),
            old(self).mode_of() == EditorMode::Wysiwyg && Self::refresh_error(*old(self), reparsed) is Some
                ==> ((r matches Err(DocumentLifecycleError::InvalidRawSource(e)) && e@
                == Self::refresh_error(*old(self), reparsed)->0) && Self::refresh_failed(
                *old(self),
                *final(self),
                Self::refresh_error(*old(self), reparsed)->0,
            )),
            old(self).mode_of() == EditorMode::Wysiwyg && Self::refresh_error(*old(self), reparsed) is None
                ==> ((r matches Ok(text) && text@ == final(self).semantic_of().serialized@)
                && final(self).semantic_of() == Self::refreshed_semantic(*old(self), reparsed)
                && !final(self).semantic_dirty_of() && final(self).raw_buffer_of() == Some(
                final(self).semantic_of().serialized@,
            ) && (final(self).raw_status_of() matches SourceParseStatus::Valid(v) && v@ == final(
                self).semantic_of().diagnostics@) && final(self).mode_of() == EditorMode::Source
                && final(self).undo_epoch_of() == saturating_next(old(self).undo_epoch_of())
                && final(self).body_of() == old(self).body_of() && Self::same_persistence(
                *old(self),
                *final(self),
            ) && Self::same_edit_bookkeeping(*old(self), *final(self))),
    {
        if self.mode != EditorMode::Wysiwyg {
            return Err(DocumentLifecycleError::WrongMode);
        }
        self.refresh_semantic(reparsed)?;
        self.raw_buffer = Some(copy_string(&self.semantic.serialized));
        self.raw_status = SourceParseStatus::Valid(copy_diagnostics(&self.semantic.diagnostics));
        self.mode = EditorMode::Source;
        self.undo_epoch = self.undo_epoch.saturating_add(1);
        Ok(self.semantic.serialized.as_str())
    }

    /// Replaces the raw source buffer, given its parse, as a new revision
    /// that marks the whole document dirty.
    pub fn update_raw_source(&mut self, raw: String, parsed: Result<ParsedBody, String>, now: u64) -> (r:
        Result<&SourceParseStatus, DocumentLifecycleError>)
        requires
            old(self).wf(),
        ensures
            final(self).wf(),
            old(self).mode_of() == EditorMode::Wysiwyg ==> (r matches Err(DocumentLifecycleError::WrongMode)
                && *final(self) == *old(self)),
            old(self).mode_of() == EditorMode::Source ==> ((match parsed {
                Ok(p) => status_of_parse(final(self).raw_status_of(), p.diagnostics@),
                Err(m) => final(self).raw_status_of() matches SourceParseStatus::Invalid { message }
                    && message@ == m@,
            }) && final(self).body_of() == raw@ && final(self).semantic_dirty_of() && final(
                self).raw_buffer_of() == Some(raw@) && final(self).semantic_of() == old(self).semantic_of()
                && final(self).mode_of() == old(self).mode_of() && final(self).undo_epoch_of() == old(
                self).undo_epoch_of() && Self::same_persistence(*old(self), *final(self)) && if old(
                self).revision_of() == u64::MAX {
                r matches Err(DocumentLifecycleError::RevisionOverflow) && Self::same_edit_bookkeeping(
                    *old(self),
                    *final(self),
                )
            } else {
                (r matches Ok(status) && *status == final(self).raw_status_of()) && Self::edit_recorded(
                    *old(self),
                    *final(self),
                    0,
                    if old(self).semantic_of().block_count > 1 {
                        old(self).semantic_of().block_count as int
                    } else {
                        1
                    },
                    now,
                )
            }),
    {
        if self.mode != EditorMode::Source {
            return Err(DocumentLifecycleError::WrongMode);
        }
        self.raw_status = match parsed {
            Ok(document) => source_parse_status(&document),
            Err(message) => SourceParseStatus::Invalid { message },
        };
        self.body = copy_string(&raw);
        self.semantic_dirty = true;
        self.raw_buffer = Some(raw);
        let blocks = if self.semantic.block_count > 1 {
            self.semantic.block_count
        } else {
            1
        };
        match self.record_edit(0..blocks, now) {
            Ok(_) => Ok(&self.raw_status),
            Err(e) => Err(e),
        }
    }

    /// Leaves source mode when the raw buffer (parsed as `parsed`) is valid:
    /// its parse becomes the semantic document and its serialization the
    /// live body. Invalid source stays open with its error.
    pub fn exit_source_mode(&mut self, parsed: Result<ParsedBody, String>) -> (r: Result<
        (),
        DocumentLifecycleError,
    >)
        requires
            old(self).wf(),
        ensures
            final(self).wf(),
            old(self).mode_of() == EditorMode::Wysiwyg ==> (r matches Err(DocumentLifecycleError::WrongMode)
                && *final(self) == *old(self)),
            old(self).mode_of() == EditorMode::Source ==> match parsed {
                Err(m) => (r matches Err(DocumentLifecycleError::InvalidRawSource(e)) && e@ == m@) && (final(
                    self).raw_status_of() matches SourceParseStatus::Invalid { message } && message@ == m@)
                    && Self::same_persistence(*old(self), *final(self)) && Self::same_text(
                    *old(self),
                    *final(self),
                ) && Self::same_edit_bookkeeping(*old(self), *final(self)) && final(self).semantic_of()
                    == old(self).semantic_of() && final(self).semantic_dirty_of() == old(
                    self).semantic_dirty_of(),
                Ok(p) => match first_error(p.diagnostics@) {
                    Some(i) => (r matches Err(DocumentLifecycleError::InvalidRawSource(e)) && e@
                        == p.diagnostics@[i].message@) && (final(self).raw_status_of() matches SourceParseStatus::Invalid {
                        message,
                    } && message@ == p.diagnostics@[i].message@) && Self::same_persistence(
                        *old(self),
                        *final(self),
                    ) && Self::same_text(*old(self), *final(self)) && Self::same_edit_bookkeeping(
                        *old(self),
                        *final(self),
                    ) && final(self).semantic_of() == old(self).semantic_of() && final(
                        self).semantic_dirty_of() == old(self).semantic_dirty_of(),
                    None => r is Ok && final(self).semantic_of() == p && !final(self).semantic_dirty_of()
                        && final(self).body_of() == p.serialized@ && final(self).raw_buffer_of() is None
                        && final(self).raw_status_of() is NotInSourceMode && final(self).mode_of()
                        == EditorMode::Wysiwyg && final(self).undo_epoch_of() == saturating_next(
                        old(self).undo_epoch_of(),
                    ) && Self::same_persistence(*old(self), *final(self))
                        && Self::same_edit_bookkeeping(*old(self), *final(self)),
                },
            },
    {
        if self.mode != EditorMode::Source {
            return Err(DocumentLifecycleError::WrongMode);
        }
        let document = match parsed {
            Ok(document) => document,
            Err(message) => {
                self.raw_status = SourceParseStatus::Invalid { message: copy_string(&message) };
                return Err(DocumentLifecycleError::InvalidRawSource(message));
            },
        };
        if let SourceParseStatus::Invalid { message } = source_parse_status(&document) {
            self.raw_status = SourceParseStatus::Invalid { message: copy_string(&message) };
            return Err(DocumentLifecycleError::InvalidRawSource(message));
        }
        self.body = copy_string(&document.serialized);
        self.semantic = document;
        self.semantic_dirty = false;
        self.raw_buffer = None;
        self.raw_status = SourceParseStatus::NotInSourceMode;
        self.mode = EditorMode::Wysiwyg;
        self.undo_epoch = self.undo_epoch.saturating_add(1);
        Ok(())
    }

    /// Leaves source mode dropping the raw buffer: the live body returns to
    /// the serialization of the semantic document.
    pub fn discard_raw_changes(&mut self) -> (r: Result<(), DocumentLifecycleError>)
        requires
            old(self).wf(),
        ensures
            final(self).wf(),
            old(self).mode_of() == EditorMode::Wysiwyg ==> (r matches Err(DocumentLifecycleError::WrongMode)
                && *final(self) == *old(self)),
            old(self).mode_of() == EditorMode::Source ==> (r is Ok && final(self).raw_buffer_of() is None
                && final(self).raw_status_of() is NotInSourceMode && final(self).mode_of()
                == EditorMode::Wysiwyg && final(self).body_of() == old(self).semantic_of().serialized@
                && final(self).semantic_of() == old(self).semantic_of() && !final(self).semantic_dirty_of()
                && final(self).undo_epoch_of() == saturating_next(old(self).undo_epoch_of())
                && Self::same_persistence(*old(self), *final(self)) && Self::same_edit_bookkeeping(
                *old(self),
                *final(self),
            )),
    {
        if self.mode != EditorMode::Source {
            return Err(DocumentLifecycleError::WrongMode);
        }
        self.raw_buffer = None;
        self.raw_status = SourceParseStatus::NotInSourceMode;
        self.mode = EditorMode::Wysiwyg;
        self.body = copy_string(&self.semantic.serialized);
        self.semantic_dirty = false;
        self.undo_epoch = self.undo_epoch.saturating_add(1);
        Ok(())
    }

    /// `after` is `before` reloaded from a canonical body `body` with parse
    /// `p`: the parse is current, and, unless the revision counter is
    /// exhausted, a new revision is saved and journaled at fingerprint `fp`
    /// with nothing dirty.
    pub open spec fn reloaded(
        before: Self,
        after: Self,
        body: Seq<char>,
        p: ParsedBody,
        fp: ContentFingerprint,
    ) -> bool {
        &&& after.semantic_of() == p
        &&& !after.semantic_dirty_of()
        &&& after.body_of() == body
        &&& after.raw_status_of() == before.raw_status_of()
        &&& after.mode_of() == before.mode_of()
        &&& after.raw_buffer_of() == before.raw_buffer_of()
        &&& after.last_edit_of() == before.last_edit_of()
        &&& after.id_of() == before.id_of()
        &&& after.generation_of() == before.generation_of()
        &&& after.config_of() == before.config_of()
        &&& if before.revision_of() == u64::MAX {
            &&& after.revision_of() == before.revision_of()
            &&& after.saved_of() == before.saved_of()
            &&& after.journaled_of() == before.journaled_of()
            &&& after.disk_fingerprint_of() == before.disk_fingerprint_of()
            &&& after.dirty_of() == before.dirty_of()
            &&& after.save_state_of() == before.save_state_of()
            &&& after.undo_epoch_of() == before.undo_epoch_of()
        } else {
            &&& after.revision_of() == before.revision_of() + 1
            &&& after.saved_of() == after.revision_of()
            &&& after.journaled_of() == after.revision_of()
            &&& after.disk_fingerprint_of() == fp
            &&& after.dirty_of().len() == 0
            &&& after.save_state_of() == SaveState::Saved
            &&& after.undo_epoch_of() == saturating_next(before.undo_epoch_of())
        }
    }

    fn reload(&mut self, body: String, document: ParsedBody, fingerprint: ContentFingerprint) -> (r: Result<
        u64,
        DocumentLifecycleError,
    >)
        requires
            old(self).wf(),
        ensures
            final(self).wf(),
            Self::reloaded(*old(self), *final(self), body@, document, fingerprint),
            old(self).revision_of() == u64::MAX ==> r matches Err(DocumentLifecycleError::RevisionOverflow),
            old(self).revision_of() < u64::MAX ==> r == Ok::<u64, DocumentLifecycleError>(
                final(self).revision_of(),
            ),
    {
        self.semantic = document;
        self.semantic_dirty = false;
        self.body = body;
        if self.revision == u64::MAX {
            return Err(DocumentLifecycleError::RevisionOverflow);
        }
        self.revision = self.revision + 1;
        self.saved_revision = self.revision;
        self.journaled_revision = self.revision;
        self.disk_fingerprint = fingerprint;
        self.dirty_blocks.clear();
        self.undo_epoch = self.undo_epoch.saturating_add(1);
        self.save_state = SaveState::Saved;
        Ok(self.revision)
    }

    /// Applies a canonical body read from disk (`parsed` is its parse). An
    /// unchanged fingerprint changes nothing; a clean session reloads it; a
    /// dirty session keeps its text and reports both sides for an explicit
    /// decision.
    pub fn observe_external_body(&mut self, external: String, parsed: Result<ParsedBody, String>) -> (r:
        Result<ExternalChange, DocumentLifecycleError>)
        requires
            old(self).wf(),
        ensures
            final(self).wf(),
            fingerprint_of(external@) == old(self).disk_fingerprint_of() ==> (r matches Ok(
                ExternalChange::Unchanged,
            ) && *final(self) == *old(self)),
            fingerprint_of(external@) != old(self).disk_fingerprint_of() && old(self).dirty() ==> (r matches Ok(
                ExternalChange::Conflict(c),
            ) && c.document_id == old(self).id_of() && c.base_fingerprint == old(self).disk_fingerprint_of()
                && c.external_fingerprint == fingerprint_of(external@) && c.local_body@ == old(self).body_of()
                && c.external_body@ == external@ && *final(self) == *old(self)),
            fingerprint_of(external@) != old(self).disk_fingerprint_of() && !old(self).dirty() ==> match parsed {
                Err(m) => (r matches Err(DocumentLifecycleError::Markdown(e)) && e@ == m@) && *final(self)
                    == *old(self),
                Ok(p) => Self::reloaded(*old(self), *final(self), external@, p, fingerprint_of(external@)) && if old(
                    self).revision_of() == u64::MAX {
                    r matches Err(DocumentLifecycleError::RevisionOverflow)
                } else {
                    r matches Ok(ExternalChange::AutoReloaded(v)) && v == final(self).revision_of()
                },
            },
    {
        let fingerprint = ContentFingerprint::of(external.as_str());
        if fingerprint == self.disk_fingerprint {
            return Ok(ExternalChange::Unchanged);
        }
        if self.revision != self.saved_revision {
            return Ok(
                ExternalChange::Conflict(
                    ExternalConflict {
                        document_id: self.document_id,
                        base_fingerprint: self.disk_fingerprint,
                        external_fingerprint: fingerprint,
                        local_body: copy_string(&self.body),
                        external_body: external,
                    },
                ),
            );
        }
        match parsed {
            Ok(document) => match self.reload(external, document, fingerprint) {
                Ok(revision) => Ok(ExternalChange::AutoReloaded(revision)),
                Err(e) => Err(e),
            },
            Err(message) => Err(DocumentLifecycleError::Markdown(message)),
        }
    }

    /// A conflict may be resolved only by the session of its document.
    pub fn check_conflict(&self, conflict: &ExternalConflict) -> (r: Result<(), DocumentLifecycleError>)
        ensures
            conflict.document_id == self.id_of() ==> r is Ok,
            conflict.document_id != self.id_of() ==> r matches Err(DocumentLifecycleError::ConflictDocument),
    {
        if conflict.document_id != self.document_id {
            return Err(DocumentLifecycleError::ConflictDocument);
        }
        Ok(())
    }

    /// Resolves a conflict by taking the external body (`parsed` is its
    /// parse) as the saved canonical text.
    pub fn resolve_external_reload(&mut self, conflict: &ExternalConflict, parsed: Result<ParsedBody, String>) -> (r:
        Result<(), DocumentLifecycleError>)
        requires
            old(self).wf(),
        ensures
            final(self).wf(),
            conflict.document_id != old(self).id_of() ==> (r matches Err(
                DocumentLifecycleError::ConflictDocument,
            ) && *final(self) == *old(self)),
            conflict.document_id == old(self).id_of() ==> match parsed {
                Err(m) => (r matches Err(DocumentLifecycleError::Markdown(e)) && e@ == m@) && *final(self)
                    == *old(self),
                Ok(p) => Self::reloaded(
                    *old(self),
                    *final(self),
                    conflict.external_body@,
                    p,
                    conflict.external_fingerprint,
                ) && if old(self).revision_of() == u64::MAX {
                    r matches Err(DocumentLifecycleError::RevisionOverflow)
                } else {
                    r is Ok
                },
            },
    {
        self.check_conflict(conflict)?;
        match parsed {
            Ok(document) => match self.reload(
                copy_string(&conflict.external_body),
                document,
                conflict.external_fingerprint,
            ) {
                Ok(_) => Ok(()),
                Err(e) => Err(e),
            },
            Err(message) => Err(DocumentLifecycleError::Markdown(message)),
        }
    }

    /// Resolves a conflict by keeping the local text: it stays dirty against
    /// the external fingerprint, and a later save is the explicit overwrite.
    pub fn resolve_external_overwrite(&mut self, conflict: &ExternalConflict) -> (r: Result<
        (),
        DocumentLifecycleError,
    >)
        requires
            old(self).wf(),
        ensures
            final(self).wf(),
            conflict.document_id != old(self).id_of() ==> (r matches Err(
                DocumentLifecycleError::ConflictDocument,
            ) && *final(self) == *old(self)),
            conflict.document_id == old(self).id_of() ==> (r is Ok && final(self).disk_fingerprint_of()
                == conflict.external_fingerprint && final(self).save_state_of() == SaveState::Dirty
                && final(self).undo_epoch_of() == saturating_next(old(self).undo_epoch_of())
                && final(self).body_of() == old(self).body_of() && final(self).mode_of() == old(
                self).mode_of() && final(self).raw_buffer_of() == old(self).raw_buffer_of()
                && Self::same_parse(*old(self), *final(self)) && Self::same_edit_bookkeeping_but_state(
                *old(self),
                *final(self),
            ) && final(self).id_of() == old(self).id_of() && final(self).generation_of() == old(
                self).generation_of() && final(self).saved_of() == old(self).saved_of() && final(
                self).journaled_of() == old(self).journaled_of() && final(self).config_of() == old(
                self).config_of()),
    {
        self.check_conflict(conflict)?;
        self.disk_fingerprint = conflict.external_fingerprint;
        self.save_state = SaveState::Dirty;
        self.undo_epoch = self.undo_epoch.saturating_add(1);
        Ok(())
    }

    /// Every recorded edit moves the session to a new stamp, so journal and
    /// save work prepared before it is acknowledged as stale afterwards; and
    /// an edit that leaves the saved revision alone leaves the session dirty.
    pub proof fn lemma_edit_makes_earlier_work_stale(before: Self, after: Self, lo: int, hi: int, now: u64)
        requires
            before.wf(),
            Self::edit_recorded(before, after, lo, hi, now),
        ensures
            after.current_stamp() != before.current_stamp(),
            after.saved_of() == before.saved_of() ==> after.dirty(),
    {
    }

    fn record_edit(&mut self, dirty: Range<usize>, now: u64) -> (r: Result<u64, DocumentLifecycleError>)
        requires
            old(self).wf(),
        ensures
            final(self).wf(),
            Self::same_persistence(*old(self), *final(self)),
            final(self).semantic_of() == old(self).semantic_of(),
            final(self).semantic_dirty_of() == old(self).semantic_dirty_of(),
            final(self).body_of() == old(self).body_of(),
            final(self).mode_of() == old(self).mode_of(),
            final(self).raw_buffer_of() == old(self).raw_buffer_of(),
            final(self).raw_status_of() == old(self).raw_status_of(),
            final(self).undo_epoch_of() == old(self).undo_epoch_of(),
            old(self).revision_of() == u64::MAX ==> (r matches Err(
                DocumentLifecycleError::RevisionOverflow,
            ) && *final(self) == *old(self)),
            old(self).revision_of() < u64::MAX ==> (r == Ok::<u64, DocumentLifecycleError>(
                final(self).revision_of(),
            ) && Self::edit_recorded(
                *old(self),
                *final(self),
                range_low(dirty.start as int, dirty.end as int),
                range_high(dirty.start as int, dirty.end as int),
                now,
            )),
    {
        if self.revision == u64::MAX {
            return Err(DocumentLifecycleError::RevisionOverflow);
        }
        self.revision = self.revision + 1;
        self.dirty_blocks.insert(dirty);
        self.last_edit = Some(now);
        self.save_state = SaveState::Dirty;
        Ok(self.revision)
    }

    /// Records a revisioned block range reported by the editor adapter.
    pub fn note_editor_delta(&mut self, first_block: usize, last_block_exclusive: usize, now: u64) -> (r: Result<
        u64,
        DocumentLifecycleError,
    >)
        requires
            old(self).wf(),
        ensures
            final(self).wf(),
            old(self).mode_of() == EditorMode::Source ==> (r matches Err(
                DocumentLifecycleError::WrongMode,
            ) && *final(self) == *old(self)),
            old(self).mode_of() == EditorMode::Wysiwyg && old(self).revision_of() == u64::MAX ==> (r matches Err(
                DocumentLifecycleError::RevisionOverflow,
            ) && *final(self) == *old(self)),
            old(self).mode_of() == EditorMode::Wysiwyg && old(self).revision_of() < u64::MAX ==> (r
                == Ok::<u64, DocumentLifecycleError>(final(self).revision_of())
                && Self::edit_recorded(
                *old(self),
                *final(self),
                range_low(first_block as int, last_block_exclusive as int),
                range_high(first_block as int, last_block_exclusive as int),
                now,
            ) && Self::same_persistence(*old(self), *final(self)) && final(self).body_of() == old(self).body_of() && final(self).semantic_dirty_of() == old(self).semantic_dirty_of()),
    {
        if self.mode != EditorMode::Wysiwyg {
            return Err(DocumentLifecycleError::WrongMode);
        }
        self.record_edit(first_block..last_block_exclusive, now)
    }
}

} // verus!

verus! {

/// Version of the recovery record format this library writes and reads.
pub const RECOVERY_FORMAT_VERSION: u32 = 1;

/// One journaled revision of a document, as kept in the recovery area.
#[derive(Clone, Debug)]
pub struct RecoveryRecord {
    pub format_version: u32,
    pub project_generation: u64,
    pub document_id: DocumentId,
    pub revision: u64,
    pub base_fingerprint: ContentFingerprint,
    pub body_fingerprint: ContentFingerprint,
    pub created_unix_ms: u64,
    pub body: String,
}

impl RecoveryRecord {
    /// A canonical save of revision `saved` makes this record redundant when
    /// it covers the record's revision.
    pub fn is_fulfilled_by(&self, saved: u64) -> (b: bool)
        ensures
            b == (self.revision <= saved),
    {
        self.revision <= saved
    }

    /// Accepts a decoded record only in the current format and with a body
    /// that matches its fingerprint.
    pub fn check(&self) -> (r: Result<(), DocumentLifecycleError>)
        ensures
            self.format_version != RECOVERY_FORMAT_VERSION ==> (r matches Err(
                DocumentLifecycleError::RecoveryVersion(v),
            ) && v == self.format_version),
            self.format_version == RECOVERY_FORMAT_VERSION && fingerprint_of(self.body@)
                != self.body_fingerprint ==> r matches Err(DocumentLifecycleError::RecoveryFingerprint),
            self.format_version == RECOVERY_FORMAT_VERSION && fingerprint_of(self.body@)
                == self.body_fingerprint ==> r is Ok,
    {
        if self.format_version != RECOVERY_FORMAT_VERSION {
            return Err(DocumentLifecycleError::RecoveryVersion(self.format_version));
        }
        if ContentFingerprint::of(self.body.as_str()) != self.body_fingerprint {
            return Err(DocumentLifecycleError::RecoveryFingerprint);
        }
        Ok(())
    }
}

impl JournalRequest {
    /// The recovery record this journal work writes, created at
    /// `created_unix_ms`.
    pub fn record(&self, created_unix_ms: u64) -> (r: RecoveryRecord)
        ensures
            r.format_version == RECOVERY_FORMAT_VERSION,
            r.project_generation == self.stamp.generation,
            r.document_id == self.document_id,
            r.revision == self.stamp.revision,
            r.base_fingerprint == self.base_fingerprint,
            r.body_fingerprint == fingerprint_of(self.body@),
            r.created_unix_ms == created_unix_ms,
            r.body@ == self.body@,
    {
        RecoveryRecord {
            format_version: RECOVERY_FORMAT_VERSION,
            project_generation: self.stamp.generation,
            document_id: self.document_id,
            revision: self.stamp.revision,
            base_fingerprint: self.base_fingerprint,
            body_fingerprint: ContentFingerprint::of(self.body.as_str()),
            created_unix_ms,
            body: copy_string(&self.body),
        }
    }
}

/// A recovery record found next to the project, with the fingerprint of the
/// canonical body on disk when that could be read.
#[derive(Debug)]
pub struct RecoveryCandidate {
    pub path: PathBuf,
    pub record: RecoveryRecord,
    pub canonical_fingerprint: Option<ContentFingerprint>,
}

impl RecoveryCandidate {
    /// The recovered body.
    pub fn preview(&self) -> (b: &str)
        ensures
            b@ == self.record.body@,
    {
        self.record.body.as_str()
    }

    /// Whether the recovered body differs from the canonical body on disk.
    pub fn is_newer_than_canonical(&self) -> (b: bool)
        ensures
            b == (self.canonical_fingerprint != Some(self.record.body_fingerprint)),
    {
        match self.canonical_fingerprint {
            Some(fingerprint) => fingerprint != self.record.body_fingerprint,
            None => true,
        }
    }
}

/// A recovery record that could not be read, with the reason.
#[derive(Debug)]
pub struct RecoveryIssue {
    pub path: PathBuf,
    pub message: String,
}

/// Recovery of journaled revisions into open sessions.
pub struct RecoveryStore;

impl RecoveryStore {
    /// Restores a candidate into the session of its document (`parsed` is
    /// the parse of the recovered body) as a new dirty revision in WYSIWYG
    /// mode that marks the whole document dirty.
    #[verifier::spinoff_prover]
    pub fn restore(
        session: &mut DocumentSession,
        candidate: &RecoveryCandidate,
        parsed: Result<ParsedBody, String>,
        now: u64,
    ) -> (r: Result<u64, DocumentLifecycleError>)
        requires
            old(session).wf(),
        ensures
            final(session).wf(),
            candidate.record.document_id != old(session).id_of() ==> (r matches Err(
                DocumentLifecycleError::ConflictDocument,
            ) && *final(session) == *old(session)),
            candidate.record.document_id == old(session).id_of() ==> match parsed {
                Err(m) => (r matches Err(DocumentLifecycleError::Markdown(e)) && e@ == m@) && *final(
                    session) == *old(session),
                Ok(p) => {
                    &&& final(session).semantic_of() == p
                    &&& !final(session).semantic_dirty_of()
                    &&& final(session).body_of() == candidate.record.body@
                    &&& final(session).mode_of() == EditorMode::Wysiwyg
                    &&& final(session).raw_buffer_of() is None
                    &&& final(session).raw_status_of() is NotInSourceMode
                    &&& DocumentSession::same_persistence(*old(session), *final(session))
                    &&& if old(session).revision_of() == u64::MAX {
                        &&& r matches Err(DocumentLifecycleError::RevisionOverflow)
                        &&& DocumentSession::same_edit_bookkeeping(*old(session), *final(session))
                        &&& final(session).undo_epoch_of() == old(session).undo_epoch_of()
                    } else {
                        &&& r == Ok::<u64, DocumentLifecycleError>(final(session).revision_of())
                        &&& DocumentSession::edit_recorded(
                            *old(session),
                            *final(session),
                            0,
                            if p.block_count > 1 {
                                p.block_count as int
                            } else {
                                1
                            },
                            now,
                        )
                        &&& final(session).undo_epoch_of() == saturating_next(
                            old(session).undo_epoch_of(),
                        )
                    }
                },
            },
    {
        if session.document_id != candidate.record.document_id {
            return Err(DocumentLifecycleError::ConflictDocument);
        }
        let document = match parsed {
            Ok(document) => document,
            Err(message) => {
                return Err(DocumentLifecycleError::Markdown(message));
            },
        };
        let blocks = if document.block_count > 1 {
            document.block_count
        } else {
            1
        };
        session.semantic = document;
        session.semantic_dirty = false;
        session.body = copy_string(&candidate.record.body);
        session.mode = EditorMode::Wysiwyg;
        session.raw_buffer = None;
        session.raw_status = SourceParseStatus::NotInSourceMode;
        let ghost prepared = *session;
        let revision = match session.record_edit(0..blocks, now) {
            Ok(revision) => revision,
            Err(e) => {
                return Err(e);
            },
        };
        let ghost recorded = *session;
        session.undo_epoch = session.undo_epoch.saturating_add(1);
        assert(DocumentSession::edit_recorded(prepared, recorded, 0, blocks as int, now));
        assert(DocumentSession::edit_recorded(prepared, *session, 0, blocks as int, now));
        Ok(revision)
    }
}

/// Work stamped `stamp` may run only while it is the stamp currently
/// published for its document.
pub fn check_work_current(current: Option<WorkStamp>, stamp: WorkStamp) -> (r: Result<(), DocumentLifecycleError>)
    ensures
        current == Some(stamp) ==> r is Ok,
        current != Some(stamp) ==> (r matches Err(DocumentLifecycleError::StaleWork(s)) && s == stamp),
{
    match current {
        Some(published) => {
            if published == stamp {
                Ok(())
            } else {
                Err(DocumentLifecycleError::StaleWork(stamp))
            }
        },
        None => Err(DocumentLifecycleError::StaleWork(stamp)),
    }
}

impl JournalRequest {
    /// The check a journal write makes before replacing the recovery record:
    /// an injected fault at that boundary stops it.
    pub fn check_before_write(&self, fault: Option<PersistenceFault>) -> (r: Result<(), DocumentLifecycleError>)
        ensures
            journal_stopped_by(fault) ==> (r matches Err(DocumentLifecycleError::InjectedFault(f))
                && fault == Some(f)),
            !journal_stopped_by(fault) ==> r is Ok,
    {
        match fault {
            Some(f) => {
                if PersistenceFault::stops_journal_before_write(fault) {
                    Err(DocumentLifecycleError::InjectedFault(f))
                } else {
                    Ok(())
                }
            },
            None => Ok(()),
        }
    }
}

/// Where a canonical save stands once its first checks passed.
#[derive(Clone, Copy, Debug, Eq, PartialEq, Structural)]
pub enum CanonicalSaveStage {
    /// The checks passed; nothing is on disk yet.
    Checked,
    /// The previous canonical body is backed up.
    BackedUp,
    /// The new canonical body is written.
    Written,
}

/// What a canonical save does next.
#[derive(Debug)]
pub enum CanonicalSaveAction {
    /// Back up the canonical body on disk.
    Backup,
    /// Replace the canonical body.
    Write,
    /// The save is complete.
    Finish,
    /// The save stops here with this error.
    Stop(DocumentLifecycleError),
}

impl JournalRequest {
    /// The check a journal write makes once the recovery record was
    /// replaced: an injected fault at that boundary reports the write as
    /// failed.
    pub fn check_after_write(&self, fault: Option<PersistenceFault>) -> (r: Result<(), DocumentLifecycleError>)
        ensures
            fault == Some(PersistenceFault::JournalAfterReplacement) ==> (r matches Err(
                DocumentLifecycleError::InjectedFault(f),
            ) && f == PersistenceFault::JournalAfterReplacement),
            fault != Some(PersistenceFault::JournalAfterReplacement) ==> r is Ok,
    {
        match fault {
            Some(PersistenceFault::JournalAfterReplacement) => Err(
                DocumentLifecycleError::InjectedFault(PersistenceFault::JournalAfterReplacement),
            ),
            _ => Ok(()),
        }
    }
}

impl CanonicalSaveRequest {
    /// The checks a canonical save makes before any backup or write: the
    /// work must still be current, the canonical body on disk (fingerprint
    /// `observed`) must be the one the save expects, and an injected fault
    /// at that boundary stops it.
    pub fn check_before_write(
        &self,
        current: WorkStamp,
        observed: ContentFingerprint,
        fault: Option<PersistenceFault>,
    ) -> (r: Result<(), DocumentLifecycleError>)
        ensures
            self.stamp != current ==> (r matches Err(DocumentLifecycleError::StaleWork(s)) && s
                == self.stamp),
            self.stamp == current && observed != self.expected_disk_fingerprint ==> (r matches Err(
                DocumentLifecycleError::ExternalChangedDuringSave { expected, observed: seen },
            ) && expected == self.expected_disk_fingerprint && seen == observed),
            self.stamp == current && observed == self.expected_disk_fingerprint
                && canonical_stopped_by(fault) ==> (r matches Err(DocumentLifecycleError::InjectedFault(f))
                && fault == Some(f)),
            self.stamp == current && observed == self.expected_disk_fingerprint && !canonical_stopped_by(
                fault,
            ) ==> r is Ok,
    {
        if self.stamp != current {
            return Err(DocumentLifecycleError::StaleWork(self.stamp));
        }
        if observed != self.expected_disk_fingerprint {
            return Err(
                DocumentLifecycleError::ExternalChangedDuringSave {
                    expected: self.expected_disk_fingerprint,
                    observed,
                },
            );
        }
        match fault {
            Some(f) => {
                if PersistenceFault::stops_canonical_before_backup(fault) {
                    Err(DocumentLifecycleError::InjectedFault(f))
                } else {
                    Ok(())
                }
            },
            None => Ok(()),
        }
    }

    /// The next step of a canonical save that has reached `stage`: the
    /// backup always comes before the write, an injected fault between the
    /// backup and the write stops the save with the backup taken and nothing
    /// written, and one after the write reports the written save as failed.
    pub fn next_step(stage: CanonicalSaveStage, fault: Option<PersistenceFault>) -> (a: CanonicalSaveAction)
        ensures
            stage == CanonicalSaveStage::Checked ==> a is Backup,
            stage == CanonicalSaveStage::BackedUp && fault == Some(PersistenceFault::CanonicalBeforeWrite)
                ==> (a matches CanonicalSaveAction::Stop(DocumentLifecycleError::InjectedFault(f)) && f
                == PersistenceFault::CanonicalBeforeWrite),
            stage == CanonicalSaveStage::BackedUp && fault != Some(PersistenceFault::CanonicalBeforeWrite)
                ==> a is Write,
            stage == CanonicalSaveStage::Written && fault == Some(PersistenceFault::CanonicalAfterWrite)
                ==> (a matches CanonicalSaveAction::Stop(DocumentLifecycleError::InjectedFault(f)) && f
                == PersistenceFault::CanonicalAfterWrite),
            stage == CanonicalSaveStage::Written && fault != Some(PersistenceFault::CanonicalAfterWrite)
                ==> a is Finish,
    {
        match stage {
            CanonicalSaveStage::Checked => CanonicalSaveAction::Backup,
            CanonicalSaveStage::BackedUp => match fault {
                Some(PersistenceFault::CanonicalBeforeWrite) => CanonicalSaveAction::Stop(
                    DocumentLifecycleError::InjectedFault(PersistenceFault::CanonicalBeforeWrite),
                ),
                _ => CanonicalSaveAction::Write,
            },
            CanonicalSaveStage::Written => match fault {
                Some(PersistenceFault::CanonicalAfterWrite) => CanonicalSaveAction::Stop(
                    DocumentLifecycleError::InjectedFault(PersistenceFault::CanonicalAfterWrite),
                ),
                _ => CanonicalSaveAction::Finish,
            },
        }
    }
}

} // verus!
