//! Word and character counts kept per document and rolled up the outline:
//! a change to one document's counts is added to every node above it.

use crate::projection::{ancestor, has_node, OutlineTree};
use crate::text::TextStatistics;
use crate::document::TextCountDelta;
use std::collections::{BTreeMap, BTreeSet};
use vstd::prelude::*;

verus! {

broadcast use vstd::laws_cmp::group_laws_cmp;

/// Why counts could not be rolled up.
#[derive(Clone, Copy, Debug, PartialEq, Eq)]
pub enum CountError {
    /// The document has no node in the project.
    DocumentAbsent,
    /// Walking up from the document came back to a node already passed.
    Cycle,
}

impl CountError {
    /// What the refusal says.
    pub fn message(&self) -> (text: &'static str)
        ensures
            text@ == match self {
                CountError::DocumentAbsent => "count document is absent"@,
                CountError::Cycle => "count ancestry contains a cycle"@,
            },
    {
        match self {
            CountError::DocumentAbsent => "count document is absent",
            CountError::Cycle => "count ancestry contains a cycle",
        }
    }
}

/// A count moved by a signed amount, held between `0` and `u64::MAX`.
pub open spec fn adjusted(value: u64, delta: i64) -> u64 {
    if value + delta < 0 {
        0
    } else if value + delta > u64::MAX {
        u64::MAX
    } else {
        (value + delta) as u64
    }
}

/// Both counts moved by their deltas.
pub open spec fn adjusted_counts(counts: TextStatistics, words: i64, characters: i64) -> TextStatistics {
    TextStatistics { words: adjusted(counts.words, words), characters: adjusted(counts.characters, characters) }
}

/// The counts stored for `key`, zero when there are none.
pub open spec fn stored(map: Map<u128, TextStatistics>, key: u128) -> TextStatistics {
    if map.contains_key(key) {
        map[key]
    } else {
        TextStatistics { words: 0, characters: 0 }
    }
}

/// The walk up from `start` passes `steps` distinct nodes and then ends:
/// at a node without a parent, or back at a node already passed.
pub open spec fn walk_ends_after(tree: OutlineTree, start: u128, steps: nat) -> bool {
    &&& forall|j: nat| j < steps ==> (#[trigger] ancestor(tree, start, j)) is Some
    &&& forall|i: nat, j: nat| i < j < steps ==> #[trigger] ancestor(tree, start, i) != #[trigger] ancestor(tree, start, j)
    &&& ancestor(tree, start, steps) is None || exists|i: nat|
        i < steps && #[trigger] ancestor(tree, start, i) == ancestor(tree, start, steps)
}

/// `x` is one of the first `steps` nodes on the walk up from `start`.
pub open spec fn on_walk(tree: OutlineTree, start: u128, steps: nat, x: u128) -> bool {
    exists|j: nat| j < steps && #[trigger] ancestor(tree, start, j) == Some(x)
}

/// `after` is `before` with the counts of every node on the walk moved by
/// the deltas.
pub open spec fn rolled_up(
    before: Map<u128, TextStatistics>,
    after: Map<u128, TextStatistics>,
    tree: OutlineTree,
    start: u128,
    steps: nat,
    words: i64,
    characters: i64,
) -> bool {
    &&& forall|x: u128| #[trigger] after.contains_key(x) <==> before.contains_key(x) || on_walk(tree, start, steps, x)
    &&& forall|x: u128|
        #[trigger] after.contains_key(x) ==> after[x] == if on_walk(tree, start, steps, x) {
            adjusted_counts(stored(before, x), words, characters)
        } else {
            before[x]
        }
}

fn adjust(value: u64, delta: i64) -> (r: u64)
    ensures
        r == adjusted(value, delta),
{
    let r = crate::workspace::apply_signed_count(value, delta);
    r
}

/// Counts per document and per outline subtree.
#[derive(Clone, Debug, Default, PartialEq, Eq)]
pub struct CountLedger {
    document_counts: BTreeMap<u128, TextStatistics>,
    subtree_counts: BTreeMap<u128, TextStatistics>,
}

impl CountLedger {
    /// The counts of each document.
    pub closed spec fn documents(&self) -> Map<u128, TextStatistics> {
        self.document_counts@
    }

    /// The counts of each node's subtree.
    pub closed spec fn subtrees(&self) -> Map<u128, TextStatistics> {
        self.subtree_counts@
    }

    /// A ledger with the given counts.
    pub fn from_counts(
        document_counts: BTreeMap<u128, TextStatistics>,
        subtree_counts: BTreeMap<u128, TextStatistics>,
    ) -> (ledger: Self)
        ensures
            ledger.documents() == document_counts@,
            ledger.subtrees() == subtree_counts@,
    {
        CountLedger { document_counts, subtree_counts }
    }

    /// Records the counts of `document` as they are, replacing any earlier.
    pub fn store_document_counts(&mut self, document: u128, counts: TextStatistics)
        ensures
            final(self).documents() == old(self).documents().insert(document, counts),
            final(self).subtrees() == old(self).subtrees(),
    {
        self.document_counts.insert(document, counts);
    }

    /// Records the counts of the subtree below `node` as they are,
    /// replacing any earlier.
    pub fn store_subtree_counts(&mut self, node: u128, counts: TextStatistics)
        ensures
            final(self).subtrees() == old(self).subtrees().insert(node, counts),
            final(self).documents() == old(self).documents(),
    {
        self.subtree_counts.insert(node, counts);
    }

    /// The counts of `document`, zero when none are known.
    pub fn document_counts(&self, document: u128) -> (counts: TextStatistics)
        ensures
            counts == stored(self.documents(), document),
    {
        match self.document_counts.get(&document) {
            Some(counts) => *counts,
            None => TextStatistics { words: 0, characters: 0 },
        }
    }

    /// The counts of the subtree below `node`, zero when none are known.
    pub fn subtree_counts(&self, node: u128) -> (counts: TextStatistics)
        ensures
            counts == stored(self.subtrees(), node),
    {
        match self.subtree_counts.get(&node) {
            Some(counts) => *counts,
            None => TextStatistics { words: 0, characters: 0 },
        }
    }

    /// Adds the deltas to every node on the walk up from `start` (the
    /// document's node; `None` when the document has none).
    fn propagate(&mut self, tree: &OutlineTree, start: Option<u128>, words: i64, characters: i64) -> (r:
        Result<(), CountError>)
        ensures
            final(self).documents() == old(self).documents(),
            match start {
                None => r == Err::<(), CountError>(CountError::DocumentAbsent) && final(self).subtrees()
                    == old(self).subtrees(),
                Some(node) => exists|steps: nat|
                    walk_ends_after(*tree, node, steps) && rolled_up(
                        old(self).subtrees(),
                        final(self).subtrees(),
                        *tree,
                        node,
                        steps,
                        words,
                        characters,
                    ) && r == if ancestor(*tree, node, steps) is None {
                        Ok::<(), CountError>(())
                    } else {
                        Err(CountError::Cycle)
                    },
            },
    {
        let first = match start {
            Some(node) => node,
            None => return Err(CountError::DocumentAbsent),
        };
        let ghost dom = tree.nodes@.dom();
        let ghost before = self.subtree_counts@;
        let mut current: Option<u128> = Some(first);
        let mut seen: BTreeSet<u128> = BTreeSet::new();
        let ghost mut steps: nat = 0;
        loop
            invariant
                start == Some(first),
                dom == tree.nodes@.dom(),
                dom.finite(),
                self.document_counts@ == old(self).document_counts@,
                before == old(self).subtree_counts@,
                current == ancestor(*tree, first, steps),
                forall|j: nat| j < steps ==> (#[trigger] ancestor(*tree, first, j)) is Some,
                forall|i: nat, j: nat|
                    i < j < steps ==> #[trigger] ancestor(*tree, first, i) != #[trigger] ancestor(
                        *tree,
                        first,
                        j,
                    ),
                forall|x: u128| seen@.contains(x) <==> on_walk(*tree, first, steps, x),
                rolled_up(before, self.subtree_counts@, *tree, first, steps, words, characters),
            decreases dom.difference(seen@).len() + if current is Some {
                1nat
            } else {
                0nat
            },
        {
            let node = match current {
                None => {
                    proof {
                        assert(walk_ends_after(*tree, first, steps));
                        assert(rolled_up(before, self.subtree_counts@, *tree, first, steps, words, characters));
                        assert(match start {
                            None => false,
                            Some(node) => exists|k: nat|
                                walk_ends_after(*tree, node, k) && rolled_up(
                                    old(self).subtrees(),
                                    self.subtrees(),
                                    *tree,
                                    node,
                                    k,
                                    words,
                                    characters,
                                ) && Ok::<(), CountError>(()) == if ancestor(*tree, node, k) is None {
                                    Ok::<(), CountError>(())
                                } else {
                                    Err(CountError::Cycle)
                                },
                        });
                    }
                    return Ok(());
                },
                Some(node) => node,
            };
            let ghost seen0 = seen@;
            if !seen.insert(node) {
                proof {
                    let i = choose|j: nat| j < steps && #[trigger] ancestor(*tree, first, j) == Some(node);
                    assert(ancestor(*tree, first, i) == ancestor(*tree, first, steps));
                    assert(walk_ends_after(*tree, first, steps));
                    assert(rolled_up(before, self.subtree_counts@, *tree, first, steps, words, characters));
                }
                return Err(CountError::Cycle);
            }
            let counts = match self.subtree_counts.get(&node) {
                Some(counts) => *counts,
                None => TextStatistics { words: 0, characters: 0 },
            };
            let updated = TextStatistics {
                words: adjust(counts.words, words),
                characters: adjust(counts.characters, characters),
            };
            let ghost map0 = self.subtree_counts@;
            self.subtree_counts.insert(node, updated);
            proof {
                assert(dom.difference(seen@) =~= dom.difference(seen0).remove(node));
                if !dom.contains(node) {
                    assert(dom.difference(seen@) =~= dom.difference(seen0));
                }
                assert(ancestor(*tree, first, steps) == Some(node));
                assert forall|x: u128| seen@.contains(x) <==> on_walk(*tree, first, steps + 1, x) by {
                    if seen@.contains(x) && x != node {
                        assert(seen0.contains(x));
                        let j = choose|j: nat| j < steps && #[trigger] ancestor(*tree, first, j) == Some(x);
                        assert(j < steps + 1);
                    }
                    if on_walk(*tree, first, steps + 1, x) {
                        let j = choose|j: nat| j < steps + 1 && #[trigger] ancestor(*tree, first, j) == Some(x);
                        if j < steps {
                            assert(on_walk(*tree, first, steps, x));
                        }
                    }
                }
                assert(!on_walk(*tree, first, steps, node));
                assert forall|x: u128| #[trigger] self.subtree_counts@.contains_key(x) ==> self.subtree_counts@[x]
                    == if on_walk(*tree, first, steps + 1, x) {
                    adjusted_counts(stored(before, x), words, characters)
                } else {
                    before[x]
                } by {
                    if x != node && self.subtree_counts@.contains_key(x) {
                        assert(map0.contains_key(x));
                        if on_walk(*tree, first, steps + 1, x) {
                            let j = choose|j: nat| j < steps + 1 && #[trigger] ancestor(*tree, first, j) == Some(x);
                            assert(j != steps);
                            assert(on_walk(*tree, first, steps, x));
                        } else {
                            if on_walk(*tree, first, steps, x) {
                                let j = choose|j: nat| j < steps && #[trigger] ancestor(*tree, first, j) == Some(x);
                                assert(j < steps + 1);
                            }
                        }
                    }
                    if x == node {
                        assert(!before.contains_key(node) || map0[node] == before[node]);
                    }
                }
            }
            current = match tree.nodes.get(&node) {
                Some(n) => n.parent,
                None => None,
            };
            proof {
                steps = steps + 1;
                assert forall|i: nat, j: nat|
                    i < j < steps implies #[trigger] ancestor(*tree, first, i) != #[trigger] ancestor(
                    *tree,
                    first,
                    j,
                ) by {
                    if j == steps - 1 {
                        if ancestor(*tree, first, i) == ancestor(*tree, first, j) {
                            assert(seen0.contains(node));
                        }
                    }
                }
            }
        }
    }

    /// Records new counts for `document` and rolls the change up from its
    /// node (`None` when the document has none).
    pub fn set_document_counts(
        &mut self,
        tree: &OutlineTree,
        document: u128,
        document_node: Option<u128>,
        counts: TextStatistics,
    ) -> (r: Result<(), CountError>)
        ensures
            final(self).documents() == old(self).documents().insert(document, counts),
            ({
                let previous = stored(old(self).documents(), document);
                let words = crate::document::signed_delta(counts.words as int, previous.words as int);
                let characters = crate::document::signed_delta(
                    counts.characters as int,
                    previous.characters as int,
                );
                match document_node {
                    None => {
                        &&& r == Err::<(), CountError>(CountError::DocumentAbsent)
                        &&& final(self).subtrees() == old(self).subtrees()
                    },
                    Some(node) => exists|steps: nat|
                        walk_ends_after(*tree, node, steps) && rolled_up(
                            old(self).subtrees(),
                            final(self).subtrees(),
                            *tree,
                            node,
                            steps,
                            words as i64,
                            characters as i64,
                        ) && r == if ancestor(*tree, node, steps) is None {
                            Ok::<(), CountError>(())
                        } else {
                            Err(CountError::Cycle)
                        },
                }
            }),
    {
        let previous = match self.document_counts.insert(document, counts) {
            Some(previous) => previous,
            None => TextStatistics { words: 0, characters: 0 },
        };
        let words = crate::workspace::signed_count_delta(counts.words, previous.words);
        let characters = crate::workspace::signed_count_delta(counts.characters, previous.characters);
        self.propagate(tree, document_node, words, characters)
    }

    /// Moves the counts of `document` by `delta` and rolls the same change up
    /// from its node (`None` when the document has none).
    pub fn apply_document_count_delta(
        &mut self,
        tree: &OutlineTree,
        document: u128,
        document_node: Option<u128>,
        delta: TextCountDelta,
    ) -> (r: Result<(), CountError>)
        ensures
            final(self).documents() == old(self).documents().insert(
                document,
                adjusted_counts(stored(old(self).documents(), document), delta.words, delta.characters),
            ),
            match document_node {
                None => r == Err::<(), CountError>(CountError::DocumentAbsent) && final(self).subtrees()
                    == old(self).subtrees(),
                Some(node) => exists|steps: nat|
                    walk_ends_after(*tree, node, steps) && rolled_up(
                        old(self).subtrees(),
                        final(self).subtrees(),
                        *tree,
                        node,
                        steps,
                        delta.words,
                        delta.characters,
                    ) && r == if ancestor(*tree, node, steps) is None {
                        Ok::<(), CountError>(())
                    } else {
                        Err(CountError::Cycle)
                    },
            },
    {
        let counts = match self.document_counts.get(&document) {
            Some(counts) => *counts,
            None => TextStatistics { words: 0, characters: 0 },
        };
        let updated = TextStatistics {
            words: adjust(counts.words, delta.words),
            characters: adjust(counts.characters, delta.characters),
        };
        self.document_counts.insert(document, updated);
        self.propagate(tree, document_node, delta.words, delta.characters)
    }
}

} // verus!
