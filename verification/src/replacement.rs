//! The bookkeeping around writing a project replacement: the undo record it
//! leaves, which document stops an undo, and what is written back, in which
//! order, when a write fails part way.

use crate::document::{fingerprint_of, ContentFingerprint};
use vstd::prelude::*;

verus! {

/// One document a project replacement rewrites, with its body before and
/// after.
#[derive(Clone, Debug, Eq, PartialEq)]
pub struct ReplaceUpdate {
    pub node: u128,
    pub original: String,
    pub output: String,
}

/// What undoing the last project replacement needs: each rewritten
/// document's original and replacement body, and the fingerprint the
/// replacement left on disk.
#[derive(Clone, Debug, Eq, PartialEq)]
pub struct ProjectReplaceUndo {
    pub originals: Vec<(u128, String)>,
    pub replacements: Vec<(u128, String)>,
    pub expected: Vec<(u128, ContentFingerprint)>,
}

/// Node and body text of each pair.
pub open spec fn bodies_view(v: Seq<(u128, String)>) -> Seq<(u128, Seq<char>)> {
    v.map_values(|p: (u128, String)| (p.0, p.1@))
}

/// The first document, in record order, whose disk content could be read
/// and no longer has the fingerprint the replacement left.
pub open spec fn first_changed(
    expected: Seq<(u128, ContentFingerprint)>,
    disk: Seq<Option<ContentFingerprint>>,
) -> Option<u128>
    decreases expected.len(),
{
    if expected.len() == 0 || disk.len() == 0 {
        None
    } else if disk[0] is Some && disk[0]->0 != expected[0].1 {
        Some(expected[0].0)
    } else {
        first_changed(expected.drop_first(), disk.drop_first())
    }
}

/// The body recorded for `node`: the first pair that names it.
pub open spec fn body_for(pairs: Seq<(u128, String)>, node: u128) -> Option<Seq<char>>
    decreases pairs.len(),
{
    if pairs.len() == 0 {
        None
    } else if pairs[0].0 == node {
        Some(pairs[0].1@)
    } else {
        body_for(pairs.drop_first(), node)
    }
}

/// The replacement bodies written back, in the order `nodes` lists them,
/// for each node that has one.
pub open spec fn rewrite_plan(nodes: Seq<u128>, replacements: Seq<(u128, String)>) -> Seq<
    (u128, Seq<char>),
>
    decreases nodes.len(),
{
    if nodes.len() == 0 {
        Seq::empty()
    } else {
        let rest = rewrite_plan(nodes.drop_last(), replacements);
        match body_for(replacements, nodes.last()) {
            Some(body) => rest.push((nodes.last(), body)),
            None => rest,
        }
    }
}

impl ProjectReplaceUndo {
    /// The undo record of a replacement that wrote `updates`, in order.
    pub fn from_updates(updates: &Vec<ReplaceUpdate>) -> (undo: Self)
        ensures
            bodies_view(undo.originals@) == updates@.map_values(
                |u: ReplaceUpdate| (u.node, u.original@),
            ),
            bodies_view(undo.replacements@) == updates@.map_values(
                |u: ReplaceUpdate| (u.node, u.output@),
            ),
            undo.expected@ == updates@.map_values(
                |u: ReplaceUpdate| (u.node, fingerprint_of(u.output@)),
            ),
    {
        let mut originals: Vec<(u128, String)> = Vec::new();
        let mut replacements: Vec<(u128, String)> = Vec::new();
        let mut expected: Vec<(u128, ContentFingerprint)> = Vec::new();
        let mut i: usize = 0;
        while i < updates.len()
            invariant
                i <= updates@.len(),
                originals@.len() == i,
                replacements@.len() == i,
                expected@.len() == i,
                forall|k: int|
                    0 <= k < i ==> (#[trigger] originals@[k]).0 == updates@[k].node
                        && originals@[k].1@ == updates@[k].original@,
                forall|k: int|
                    0 <= k < i ==> (#[trigger] replacements@[k]).0 == updates@[k].node
                        && replacements@[k].1@ == updates@[k].output@,
                forall|k: int|
                    0 <= k < i ==> #[trigger] expected@[k] == (
                        updates@[k].node,
                        fingerprint_of(updates@[k].output@),
                    ),
            decreases updates.len() - i,
        {
            let update = &updates[i];
            let original = update.original.clone();
            let output = update.output.clone();
            let fingerprint = ContentFingerprint::of(update.output.as_str());
            originals.push((update.node, original));
            replacements.push((update.node, output));
            expected.push((update.node, fingerprint));
            i = i + 1;
        }
        assert(bodies_view(originals@) =~= updates@.map_values(
            |u: ReplaceUpdate| (u.node, u.original@),
        ));
        assert(bodies_view(replacements@) =~= updates@.map_values(
            |u: ReplaceUpdate| (u.node, u.output@),
        ));
        assert(expected@ =~= updates@.map_values(
            |u: ReplaceUpdate| (u.node, fingerprint_of(u.output@)),
        ));
        ProjectReplaceUndo { originals, replacements, expected }
    }

    /// The document that stops an undo: the first recorded document whose
    /// disk content (`disk[i]`, `None` when it could not be read) no longer
    /// has the fingerprint the replacement left. `None` lets the undo run.
    pub fn undo_conflict(&self, disk: &Vec<Option<ContentFingerprint>>) -> (r: Option<u128>)
        ensures
            r == first_changed(self.expected@, disk@),
    {
        let ghost expected = self.expected@;
        let mut i: usize = 0;
        assert(expected.skip(0) =~= expected);
        assert(disk@.skip(0) =~= disk@);
        while i < self.expected.len() && i < disk.len()
            invariant
                i <= expected.len(),
                i <= disk@.len(),
                expected == self.expected@,
                first_changed(expected, disk@) == first_changed(
                    expected.skip(i as int),
                    disk@.skip(i as int),
                ),
            decreases self.expected.len() - i,
        {
            assert(expected.skip(i as int)[0] == expected[i as int]);
            assert(disk@.skip(i as int)[0] == disk@[i as int]);
            let (node, recorded) = self.expected[i];
            if let Some(found) = disk[i] {
                if found != recorded {
                    return Some(node);
                }
            }
            assert(expected.skip(i as int).drop_first() =~= expected.skip(i + 1));
            assert(disk@.skip(i as int).drop_first() =~= disk@.skip(i + 1));
            i = i + 1;
        }
        assert(expected.skip(i as int).len() == 0 || disk@.skip(i as int).len() == 0);
        None
    }

    /// What an undo writes back after restoring the first `restored`
    /// originals and failing on the next: the replacement body of each
    /// restored document, most recent first.
    pub fn undo_rollback(&self, restored: usize) -> (plan: Vec<(u128, String)>)
        requires
            restored <= self.originals@.len(),
        ensures
            bodies_view(plan@) == rewrite_plan(
                self.originals@.take(restored as int).map_values(|p: (u128, String)| p.0).reverse(),
                self.replacements@,
            ),
    {
        let ghost nodes = self.originals@.take(restored as int).map_values(
            |p: (u128, String)| p.0,
        ).reverse();
        let mut plan: Vec<(u128, String)> = Vec::new();
        let mut k: usize = 0;
        while k < restored
            invariant
                k <= restored <= self.originals@.len(),
                nodes == self.originals@.take(restored as int).map_values(
                    |p: (u128, String)| p.0,
                ).reverse(),
                bodies_view(plan@) == rewrite_plan(nodes.take(k as int), self.replacements@),
            decreases restored - k,
        {
            let node = self.originals[restored - 1 - k].0;
            proof {
                assert(nodes[k as int] == node);
                assert(nodes.take(k + 1).drop_last() =~= nodes.take(k as int));
                assert(nodes.take(k + 1).last() == node);
            }
            let found = replacement_body(&self.replacements, node);
            match found {
                Some(body) => {
                    plan.push((node, body));
                    proof {
                        assert(bodies_view(plan@) =~= rewrite_plan(nodes.take(k as int), self.replacements@).push(
                            (node, body@),
                        ));
                    }
                },
                None => {},
            }
            k = k + 1;
        }
        assert(nodes.take(k as int) =~= nodes);
        plan
    }
}

fn replacement_body(pairs: &Vec<(u128, String)>, node: u128) -> (r: Option<String>)
    ensures
        match r {
            Some(body) => body_for(pairs@, node) == Some(body@),
            None => body_for(pairs@, node) is None,
        },
{
    let mut f: usize = 0;
    assert(pairs@.skip(0) =~= pairs@);
    while f < pairs.len()
        invariant
            f <= pairs@.len(),
            body_for(pairs@, node) == body_for(pairs@.skip(f as int), node),
        decreases pairs.len() - f,
    {
        assert(pairs@.skip(f as int)[0] == pairs@[f as int]);
        if pairs[f].0 == node {
            let body = pairs[f].1.clone();
            return Some(body);
        }
        assert(pairs@.skip(f as int).drop_first() =~= pairs@.skip(f + 1));
        f = f + 1;
    }
    assert(pairs@.skip(f as int) =~= Seq::<(u128, String)>::empty());
    None
}

/// What a replacement writes back after writing the first `written` updates
/// and failing on the next: the original body of each written document,
/// most recent first.
pub fn replacement_rollback(updates: &Vec<ReplaceUpdate>, written: usize) -> (plan: Vec<(u128, String)>)
    requires
        written <= updates@.len(),
    ensures
        bodies_view(plan@) == updates@.take(written as int).map_values(
            |u: ReplaceUpdate| (u.node, u.original@),
        ).reverse(),
{
    let ghost target = updates@.take(written as int).map_values(
        |u: ReplaceUpdate| (u.node, u.original@),
    ).reverse();
    let mut plan: Vec<(u128, String)> = Vec::new();
    let mut k: usize = 0;
    while k < written
        invariant
            k <= written <= updates@.len(),
            target == updates@.take(written as int).map_values(
                |u: ReplaceUpdate| (u.node, u.original@),
            ).reverse(),
            bodies_view(plan@) == target.take(k as int),
        decreases written - k,
    {
        let update = &updates[written - 1 - k];
        let body = update.original.clone();
        let ghost before = plan@;
        plan.push((update.node, body));
        proof {
            assert(target[k as int] == (update.node, update.original@));
            assert(plan@ == before.push((update.node, body)));
            assert(bodies_view(plan@) =~= bodies_view(before).push((update.node, body@)));
            assert(target.take(k + 1) =~= target.take(k as int).push(target[k as int]));
        }
        k = k + 1;
    }
    assert(target.take(k as int) =~= target);
    plan
}

/// An undo is allowed when no recorded document changed: if every readable
/// disk content still has the fingerprint the replacement left, no document
/// stops the undo.
pub proof fn lemma_unchanged_documents_allow_undo(
    expected: Seq<(u128, ContentFingerprint)>,
    disk: Seq<Option<ContentFingerprint>>,
)
    requires
        forall|i: int|
            0 <= i < expected.len() && i < disk.len() && (#[trigger] disk[i]) is Some ==> disk[i]->0
                == expected[i].1,
    ensures
        first_changed(expected, disk) is None,
    decreases expected.len(),
{
    if expected.len() > 0 && disk.len() > 0 {
        let e = expected.drop_first();
        let d = disk.drop_first();
        assert forall|i: int| 0 <= i < e.len() && i < d.len() && (#[trigger] d[i]) is Some implies d[i]->0
            == e[i].1 by {
            assert(d[i] == disk[i + 1]);
            assert(e[i] == expected[i + 1]);
        }
        lemma_unchanged_documents_allow_undo(e, d);
    }
}

} // verus!
