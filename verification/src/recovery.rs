//! Sorting the files of the recovery folder into recoverable documents and
//! reported problems. Each file is judged on its own, so a malformed record
//! never hides another document's recovery.

use crate::document::{ContentFingerprint, RecoveryCandidate, RecoveryIssue, RecoveryRecord, RecoveryStore};
use std::path::PathBuf;
use vstd::prelude::*;

verus! {

/// What reading one recovery record file gave.
#[derive(Debug)]
pub enum RecoveryEntry {
    /// The file could not be read or checked, for the reason given.
    Unreadable { path: PathBuf, message: String },
    /// A checked record, with the fingerprint of its document's canonical
    /// body on disk when that could be read.
    Record {
        path: PathBuf,
        record: RecoveryRecord,
        canonical_fingerprint: Option<ContentFingerprint>,
    },
}

/// The outcome of scanning the recovery folder.
#[derive(Debug)]
pub struct RecoveryScan {
    /// Records newer than their canonical document, by document and revision.
    pub candidates: Vec<RecoveryCandidate>,
    /// Files that could not be used, in the order they were listed.
    pub issues: Vec<RecoveryIssue>,
}

/// Only `.toml` files of the recovery folder hold records.
pub open spec fn is_record_extension(extension: Option<Seq<char>>) -> bool {
    extension == Some(seq!['t', 'o', 'm', 'l'])
}

/// Whether a file with this extension is read as a recovery record.
pub fn is_recovery_file(extension: Option<&str>) -> (r: bool)
    ensures
        r == is_record_extension(
            match extension {
                Some(e) => Some(e@),
                None => None,
            },
        ),
{
    match extension {
        Some(e) => {
            let chars = crate::chars::chars_of(e);
            let expected = vec!['t', 'o', 'm', 'l'];
            assert(expected@ =~= seq!['t', 'o', 'm', 'l']);
            crate::chars::chars_equal(&chars, &expected)
        },
        None => false,
    }
}

/// `a` sorts no later than `b`: by document, then by revision.
pub open spec fn candidate_precedes(a: RecoveryCandidate, b: RecoveryCandidate) -> bool {
    a.record.document_id.0 < b.record.document_id.0 || (a.record.document_id.0
        == b.record.document_id.0 && a.record.revision <= b.record.revision)
}

/// `c` placed into `sorted` after every candidate that sorts no later.
pub open spec fn insert_candidate(sorted: Seq<RecoveryCandidate>, c: RecoveryCandidate) -> Seq<
    RecoveryCandidate,
>
    decreases sorted.len(),
{
    if sorted.len() == 0 || candidate_precedes(sorted.last(), c) {
        sorted.push(c)
    } else {
        insert_candidate(sorted.drop_last(), c).push(sorted.last())
    }
}

/// Candidates sorted by document and revision, keeping the listed order of
/// equal keys.
pub open spec fn sort_candidates(s: Seq<RecoveryCandidate>) -> Seq<RecoveryCandidate>
    decreases s.len(),
{
    if s.len() == 0 {
        Seq::empty()
    } else {
        insert_candidate(sort_candidates(s.drop_last()), s.last())
    }
}

/// The records of `entries` that are newer than their canonical document
/// (or whose canonical body could not be read), in listed order.
pub open spec fn newer_records(entries: Seq<RecoveryEntry>) -> Seq<RecoveryCandidate>
    decreases entries.len(),
{
    if entries.len() == 0 {
        Seq::empty()
    } else {
        let earlier = newer_records(entries.drop_last());
        match entries.last() {
            RecoveryEntry::Record { path, record, canonical_fingerprint } => if canonical_fingerprint
                != Some(record.body_fingerprint) {
                earlier.push(RecoveryCandidate { path, record, canonical_fingerprint })
            } else {
                earlier
            },
            RecoveryEntry::Unreadable { .. } => earlier,
        }
    }
}

/// The unreadable files of `entries`, in listed order.
pub open spec fn unreadable_files(entries: Seq<RecoveryEntry>) -> Seq<RecoveryIssue>
    decreases entries.len(),
{
    if entries.len() == 0 {
        Seq::empty()
    } else {
        let earlier = unreadable_files(entries.drop_last());
        match entries.last() {
            RecoveryEntry::Unreadable { path, message } => earlier.push(RecoveryIssue { path, message }),
            RecoveryEntry::Record { .. } => earlier,
        }
    }
}

/// Finds where `c` goes in `sorted` and puts it there.
fn insert_sorted(sorted: &mut Vec<RecoveryCandidate>, c: RecoveryCandidate)
    ensures
        final(sorted)@ == insert_candidate(old(sorted)@, c),
{
    let ghost s = sorted@;
    let mut p: usize = sorted.len();
    assert(s.take(p as int) =~= s);
    assert(s.skip(p as int) =~= Seq::<RecoveryCandidate>::empty());
    while p > 0 && !(sorted[p - 1].record.document_id.0 < c.record.document_id.0 || (
    sorted[p - 1].record.document_id.0 == c.record.document_id.0 && sorted[p - 1].record.revision
        <= c.record.revision))
        invariant
            p <= s.len(),
            sorted@ == s,
            insert_candidate(s, c) == insert_candidate(s.take(p as int), c) + s.skip(p as int),
        decreases p,
    {
        proof {
            let t = s.take(p as int);
            assert(t.last() == s[p - 1]);
            assert(t.drop_last() =~= s.take(p - 1));
            assert(s.skip(p - 1) =~= seq![s[p - 1]] + s.skip(p as int));
            assert(insert_candidate(t, c) == insert_candidate(s.take(p - 1), c).push(s[p - 1]));
            assert(insert_candidate(t, c) + s.skip(p as int) =~= insert_candidate(s.take(p - 1), c)
                + s.skip(p - 1));
        }
        p = p - 1;
    }
    proof {
        let t = s.take(p as int);
        assert(insert_candidate(t, c) == t.push(c));
        assert(insert_candidate(s, c) =~= s.insert(p as int, c));
    }
    sorted.insert(p, c);
}

impl RecoveryStore {
    /// Sorts the record files of the recovery folder, each judged on its
    /// own: an unreadable file becomes an issue with its path, and a record
    /// becomes a candidate when its body differs from the canonical body on
    /// disk (or that could not be read). Candidates come by document and
    /// revision; issues keep the listed order.
    pub fn scan_isolated(entries: Vec<RecoveryEntry>) -> (scan: RecoveryScan)
        ensures
            scan.candidates@ == sort_candidates(newer_records(entries@)),
            scan.issues@ == unreadable_files(entries@),
    {
        let ghost all = entries@;
        let total = entries.len();
        assert(all.len() == total);
        let mut rest = entries;
        let mut candidates: Vec<RecoveryCandidate> = Vec::new();
        let mut issues: Vec<RecoveryIssue> = Vec::new();
        let mut consumed: usize = 0;
        assert(all.skip(0) =~= all);
        while rest.len() > 0
            invariant
                consumed <= all.len() <= usize::MAX,
                consumed + rest@.len() == all.len(),
                rest@ == all.skip(consumed as int),
                candidates@ == sort_candidates(newer_records(all.take(consumed as int))),
                issues@ == unreadable_files(all.take(consumed as int)),
            decreases rest.len(),
        {
            let entry = rest.remove(0);
            let ghost i = consumed as int;
            proof {
                assert(entry == all[i]);
                assert(all.take(i + 1).drop_last() =~= all.take(i));
                assert(all.take(i + 1).last() == entry);
                assert(rest@ =~= all.skip(i + 1));
            }
            match entry {
                RecoveryEntry::Unreadable { path, message } => {
                    issues.push(RecoveryIssue { path, message });
                },
                RecoveryEntry::Record { path, record, canonical_fingerprint } => {
                    let newer = match canonical_fingerprint {
                        Some(found) => found != record.body_fingerprint,
                        None => true,
                    };
                    let candidate = RecoveryCandidate { path, record, canonical_fingerprint };
                    if newer {
                        proof {
                            let listed = newer_records(all.take(i + 1));
                            assert(listed == newer_records(all.take(i)).push(candidate));
                            assert(listed.drop_last() =~= newer_records(all.take(i)));
                            assert(listed.last() == candidate);
                        }
                        insert_sorted(&mut candidates, candidate);
                    }
                },
            }
            consumed = consumed + 1;
        }
        proof {
            assert(all.take(consumed as int) =~= all);
        }
        RecoveryScan { candidates, issues }
    }
}

proof fn lemma_insert_keeps(sorted: Seq<RecoveryCandidate>, c: RecoveryCandidate, x: RecoveryCandidate)
    requires
        x == c || sorted.contains(x),
    ensures
        insert_candidate(sorted, c).contains(x),
    decreases sorted.len(),
{
    if sorted.len() == 0 || candidate_precedes(sorted.last(), c) {
        let out = sorted.push(c);
        if x == c {
            assert(out[sorted.len() as int] == c);
        } else {
            let k = choose|k: int| 0 <= k < sorted.len() && sorted[k] == x;
            assert(out[k] == x);
        }
    } else {
        let front = sorted.drop_last();
        let inner = insert_candidate(front, c);
        let out = inner.push(sorted.last());
        if x == sorted.last() {
            assert(out[inner.len() as int] == x);
        } else {
            if x != c {
                let k = choose|k: int| 0 <= k < sorted.len() && sorted[k] == x;
                assert(k < front.len());
                assert(front[k] == x);
            }
            lemma_insert_keeps(front, c, x);
            let k = choose|k: int| 0 <= k < inner.len() && inner[k] == x;
            assert(out[k] == x);
        }
    }
}

proof fn lemma_sort_keeps(s: Seq<RecoveryCandidate>, x: RecoveryCandidate)
    requires
        s.contains(x),
    ensures
        sort_candidates(s).contains(x),
    decreases s.len(),
{
    let front = s.drop_last();
    if x != s.last() {
        let k = choose|k: int| 0 <= k < s.len() && s[k] == x;
        assert(k < front.len());
        assert(front[k] == x);
        lemma_sort_keeps(front, x);
    }
    lemma_insert_keeps(sort_candidates(front), s.last(), x);
}

/// A file that cannot be read is reported and hides nothing: every record
/// newer than its canonical document (or whose canonical body could not be
/// read) is a candidate of the scan, whatever else the folder holds.
pub proof fn lemma_every_newer_record_is_offered(
    entries: Seq<RecoveryEntry>,
    i: int,
    path: PathBuf,
    record: RecoveryRecord,
    canonical_fingerprint: Option<ContentFingerprint>,
)
    requires
        0 <= i < entries.len(),
        entries[i] == (RecoveryEntry::Record { path, record, canonical_fingerprint }),
        canonical_fingerprint != Some(record.body_fingerprint),
    ensures
        sort_candidates(newer_records(entries)).contains(
            RecoveryCandidate { path, record, canonical_fingerprint },
        ),
{
    let c = RecoveryCandidate { path, record, canonical_fingerprint };
    lemma_newer_record_listed(entries, i, c);
    lemma_sort_keeps(newer_records(entries), c);
}

proof fn lemma_newer_record_listed(entries: Seq<RecoveryEntry>, i: int, c: RecoveryCandidate)
    requires
        0 <= i < entries.len(),
        entries[i] == (RecoveryEntry::Record {
            path: c.path,
            record: c.record,
            canonical_fingerprint: c.canonical_fingerprint,
        }),
        c.canonical_fingerprint != Some(c.record.body_fingerprint),
    ensures
        newer_records(entries).contains(c),
    decreases entries.len(),
{
    let front = entries.drop_last();
    let earlier = newer_records(front);
    if i == entries.len() - 1 {
        assert(newer_records(entries) == earlier.push(c));
        assert(earlier.push(c)[earlier.len() as int] == c);
    } else {
        assert(front[i] == entries[i]);
        lemma_newer_record_listed(front, i, c);
        let k = choose|k: int| 0 <= k < earlier.len() && earlier[k] == c;
        assert(newer_records(entries)[k] == c);
    }
}

} // verus!
