//! What the workspace does with each progress report of a search-index
//! rebuild: batches become the indexing status, count rows are stored and
//! refresh the outline rows they name, and the end of the rebuild settles the
//! status. Reports for another rebuild are ignored.

use crate::counts::CountLedger;
use crate::outline::{last_index, lemma_last_index, row_ids, BinderRow, BinderSnapshot};
use crate::projection::{binder_row, has_node, shows_node, OutlineTree};
use crate::text::{IndexStatus, TextStatistics};
use crate::workspace::{data_deltas, position_leq, position_runs, OutlineDelta};
use vstd::prelude::*;

verus! {

/// The counts the rebuild found for one outline node.
#[derive(Clone, Copy, Debug, Eq, PartialEq)]
pub struct IndexCountRow {
    pub node: u128,
    /// The node's document, if it has one.
    pub document: Option<u128>,
    pub document_words: u64,
    pub document_characters: u64,
    pub subtree_words: u64,
    pub subtree_characters: u64,
}

/// One progress report of a rebuild, tagged with the rebuild's revision.
#[derive(Clone, Debug, Eq, PartialEq)]
pub enum SearchRebuildProgress {
    Batch { revision: u64, completed: u64, total: u64 },
    Counts { revision: u64, rows: Vec<IndexCountRow> },
    Complete { revision: u64, total: u64 },
    Cancelled { revision: u64 },
    Failed { revision: u64, message: String },
}

/// What the workspace does next after one report.
#[derive(Clone, Debug, Eq, PartialEq)]
pub enum IndexPoll {
    /// Keep polling; these outline rows changed.
    Continue(Vec<OutlineDelta>),
    /// The rebuild finished: counts are complete and the worker is done.
    Completed,
    /// The worker stopped, cancelled or failed, and is dropped.
    Stopped,
}

/// The rebuild a report belongs to.
pub open spec fn progress_revision(progress: SearchRebuildProgress) -> u64 {
    match progress {
        SearchRebuildProgress::Batch { revision, .. } => revision,
        SearchRebuildProgress::Counts { revision, .. } => revision,
        SearchRebuildProgress::Complete { revision, .. } => revision,
        SearchRebuildProgress::Cancelled { revision } => revision,
        SearchRebuildProgress::Failed { revision, .. } => revision,
    }
}

/// The document counts after storing `rows` in order.
pub open spec fn stored_documents(
    counts: Map<u128, TextStatistics>,
    rows: Seq<IndexCountRow>,
) -> Map<u128, TextStatistics>
    decreases rows.len(),
{
    if rows.len() == 0 {
        counts
    } else {
        let earlier = stored_documents(counts, rows.drop_last());
        let row = rows.last();
        match row.document {
            Some(document) => earlier.insert(
                document,
                TextStatistics { words: row.document_words, characters: row.document_characters },
            ),
            None => earlier,
        }
    }
}

/// The subtree counts after storing `rows` in order.
pub open spec fn stored_subtrees(
    counts: Map<u128, TextStatistics>,
    rows: Seq<IndexCountRow>,
) -> Map<u128, TextStatistics>
    decreases rows.len(),
{
    if rows.len() == 0 {
        counts
    } else {
        let row = rows.last();
        stored_subtrees(counts, rows.drop_last()).insert(
            row.node,
            TextStatistics { words: row.subtree_words, characters: row.subtree_characters },
        )
    }
}

/// The outline positions that `rows` name, in report order; a node without
/// a row names none.
pub open spec fn named_positions(ids: Seq<u128>, rows: Seq<IndexCountRow>) -> Seq<usize>
    decreases rows.len(),
{
    if rows.len() == 0 {
        Seq::empty()
    } else {
        let earlier = named_positions(ids, rows.drop_last());
        match last_index(ids, rows.last().node) {
            Some(position) => earlier.push(position as usize),
            None => earlier,
        }
    }
}

/// The last report row that names `node`.
pub open spec fn last_naming(rows: Seq<IndexCountRow>, node: u128) -> Option<int>
    decreases rows.len(),
{
    if rows.len() == 0 {
        None
    } else if rows.last().node == node {
        Some(rows.len() - 1)
    } else {
        last_naming(rows.drop_last(), node)
    }
}

/// A word count shown in a row: the subtree's words, or the largest row
/// count when they do not fit.
pub open spec fn shown_words(words: u64) -> usize {
    if words <= usize::MAX {
        words as usize
    } else {
        usize::MAX
    }
}

/// `after` is `before` with every row that `rows` name shown again with its
/// subtree's word count (from the last report row that names it), at its
/// depth; the rows keep their nodes, and all other rows are unchanged.
pub open spec fn refreshed_rows(
    before: Seq<BinderRow>,
    after: Seq<BinderRow>,
    tree: OutlineTree,
    rows: Seq<IndexCountRow>,
) -> bool {
    let ids = row_ids(before);
    &&& after.len() == before.len()
    &&& row_ids(after) == ids
    &&& forall|i: int|
        0 <= i < before.len() ==> if last_index(ids, ids[i]) == Some(i) && last_naming(rows, ids[i])
            is Some {
            shows_node(
                #[trigger] after[i],
                tree,
                ids[i],
                before[i].depth,
                shown_words(rows[last_naming(rows, ids[i])->0].subtree_words),
            )
        } else {
            after[i] == before[i]
        }
}

proof fn lemma_last_naming(rows: Seq<IndexCountRow>, node: u128)
    ensures
        last_naming(rows, node) matches Some(j) ==> 0 <= j < rows.len() && rows[j].node == node,
    decreases rows.len(),
{
    if rows.len() > 0 {
        lemma_last_naming(rows.drop_last(), node);
    }
}

proof fn lemma_last_naming_step(rows: Seq<IndexCountRow>, j: int, node: u128)
    requires
        0 <= j < rows.len(),
    ensures
        last_naming(rows.take(j + 1), node) == if rows[j].node == node {
            Some(j)
        } else {
            last_naming(rows.take(j), node)
        },
        last_naming(rows.take(j), node) matches Some(k) ==> 0 <= k < j && rows[k].node == node,
{
    assert(rows.take(j + 1).drop_last() =~= rows.take(j));
    lemma_last_naming(rows.take(j), node);
}

/// Showing the row of report row `j`, which names an outline row, keeps the
/// refresh relation one report row further.
proof fn lemma_refresh_named(
    before: Seq<BinderRow>,
    rows0: Seq<BinderRow>,
    after: Seq<BinderRow>,
    tree: OutlineTree,
    rows: Seq<IndexCountRow>,
    j: int,
    shown: BinderRow,
)
    requires
        0 <= j < rows.len(),
        refreshed_rows(before, rows0, tree, rows.take(j)),
        last_index(row_ids(rows0), rows[j].node) is Some,
        shows_node(shown, tree, rows[j].node, 0, shown_words(rows[j].subtree_words)),
        after == rows0.update(
            last_index(row_ids(rows0), rows[j].node)->0,
            BinderRow {
                id: rows[j].node,
                depth: rows0[last_index(row_ids(rows0), rows[j].node)->0].depth,
                ..shown
            },
        ),
    ensures
        refreshed_rows(before, after, tree, rows.take(j + 1)),
{
    let ids = row_ids(before);
    let node = rows[j].node;
    let p = last_index(row_ids(rows0), node)->0;
    lemma_last_index(ids, node);
    assert(row_ids(rows0) =~= ids);
    assert(row_ids(after) =~= ids);
    assert forall|i: int| 0 <= i < before.len() implies if last_index(ids, ids[i]) == Some(i)
        && last_naming(rows.take(j + 1), ids[i]) is Some {
        shows_node(
            #[trigger] after[i],
            tree,
            ids[i],
            before[i].depth,
            shown_words(rows.take(j + 1)[last_naming(rows.take(j + 1), ids[i])->0].subtree_words),
        )
    } else {
        after[i] == before[i]
    } by {
        lemma_last_naming_step(rows, j, ids[i]);
        assert(row_ids(rows0)[i] == ids[i]);
        assert(rows0[i] == rows0[i]);
        if i == p {
            assert(rows0[i].depth == before[i].depth);
        } else {
            assert(after[i] == rows0[i]);
            if ids[i] == node {
                assert(last_index(ids, ids[i]) != Some(i));
            } else if let Some(k) = last_naming(rows.take(j), ids[i]) {
                assert(rows.take(j + 1)[k] == rows.take(j)[k]);
            }
        }
    }
}

/// A report row that names no outline row keeps the refresh relation one
/// report row further without changing any row.
proof fn lemma_refresh_unnamed(
    before: Seq<BinderRow>,
    rows0: Seq<BinderRow>,
    tree: OutlineTree,
    rows: Seq<IndexCountRow>,
    j: int,
)
    requires
        0 <= j < rows.len(),
        refreshed_rows(before, rows0, tree, rows.take(j)),
        last_index(row_ids(rows0), rows[j].node) is None,
    ensures
        refreshed_rows(before, rows0, tree, rows.take(j + 1)),
{
    let ids = row_ids(before);
    let node = rows[j].node;
    assert(row_ids(rows0) =~= ids);
    lemma_last_index(ids, node);
    assert forall|i: int| 0 <= i < before.len() implies if last_index(ids, ids[i]) == Some(i)
        && last_naming(rows.take(j + 1), ids[i]) is Some {
        shows_node(
            #[trigger] rows0[i],
            tree,
            ids[i],
            before[i].depth,
            shown_words(rows.take(j + 1)[last_naming(rows.take(j + 1), ids[i])->0].subtree_words),
        )
    } else {
        rows0[i] == before[i]
    } by {
        lemma_last_naming_step(rows, j, ids[i]);
        assert(ids[i] == ids[i]);
        if let Some(k) = last_naming(rows.take(j), ids[i]) {
            assert(rows.take(j + 1)[k] == rows.take(j)[k]);
        }
    }
}

/// Every node that a count report for rebuild `index_revision` names and
/// that has an outline row is in the tree.
pub open spec fn named_nodes_present(
    progress: SearchRebuildProgress,
    index_revision: u64,
    ids: Seq<u128>,
    tree: OutlineTree,
) -> bool {
    match progress {
        SearchRebuildProgress::Counts { revision, rows } => revision == index_revision ==> forall|j: int|
            0 <= j < rows@.len() && last_index(ids, #[trigger] rows@[j].node) is Some ==> has_node(
                tree,
                rows@[j].node,
            ),
        _ => true,
    }
}

fn shown_word_count(words: u64) -> (r: usize)
    ensures
        r == shown_words(words),
{
    if words <= usize::MAX as u64 {
        words as usize
    } else {
        usize::MAX
    }
}

/// Applies one progress report of the rebuild `index_revision`. Reports for
/// another rebuild change nothing. A batch becomes the indexing status. Count
/// rows are stored, refresh the outline rows they name, and the changed
/// positions, sorted, become `Data` deltas for their runs. Completion makes
/// the index ready; cancellation stops the worker; failure makes the index
/// unavailable with its message.
pub fn apply_index_progress(
    status: &mut IndexStatus,
    ledger: &mut CountLedger,
    snapshot: &mut BinderSnapshot,
    tree: &OutlineTree,
    index_revision: u64,
    progress: SearchRebuildProgress,
) -> (next: IndexPoll)
    requires
        old(snapshot).wf(),
        named_nodes_present(progress, index_revision, row_ids(old(snapshot).rows_view()), *tree),
    ensures
        final(snapshot).wf(),
        progress_revision(progress) != index_revision ==> {
            &&& *final(status) == *old(status)
            &&& final(ledger).documents() == old(ledger).documents()
            &&& final(ledger).subtrees() == old(ledger).subtrees()
            &&& final(snapshot).rows_view() == old(snapshot).rows_view()
            &&& next matches IndexPoll::Continue(deltas) && deltas@.len() == 0
        },
        progress_revision(progress) == index_revision ==> match progress {
            SearchRebuildProgress::Batch { revision, completed, total } => {
                &&& *final(status) == IndexStatus::Indexing { revision, completed, total }
                &&& final(ledger).documents() == old(ledger).documents()
                &&& final(ledger).subtrees() == old(ledger).subtrees()
                &&& final(snapshot).rows_view() == old(snapshot).rows_view()
                &&& next matches IndexPoll::Continue(deltas) && deltas@.len() == 0
            },
            SearchRebuildProgress::Counts { rows, .. } => {
                &&& *final(status) == *old(status)
                &&& final(ledger).documents() == stored_documents(old(ledger).documents(), rows@)
                &&& final(ledger).subtrees() == stored_subtrees(old(ledger).subtrees(), rows@)
                &&& refreshed_rows(old(snapshot).rows_view(), final(snapshot).rows_view(), *tree, rows@)
                &&& next matches IndexPoll::Continue(deltas) && deltas@ == position_runs(
                    named_positions(row_ids(old(snapshot).rows_view()), rows@).sort_by(position_leq()),
                    0,
                )
            },
            SearchRebuildProgress::Complete { .. } => {
                &&& *final(status) == IndexStatus::Ready
                &&& final(ledger).documents() == old(ledger).documents()
                &&& final(ledger).subtrees() == old(ledger).subtrees()
                &&& final(snapshot).rows_view() == old(snapshot).rows_view()
                &&& next == IndexPoll::Completed
            },
            SearchRebuildProgress::Cancelled { .. } => {
                &&& *final(status) == *old(status)
                &&& final(ledger).documents() == old(ledger).documents()
                &&& final(ledger).subtrees() == old(ledger).subtrees()
                &&& final(snapshot).rows_view() == old(snapshot).rows_view()
                &&& next == IndexPoll::Stopped
            },
            SearchRebuildProgress::Failed { message, .. } => {
                &&& *final(status) == IndexStatus::Unavailable(message)
                &&& final(ledger).documents() == old(ledger).documents()
                &&& final(ledger).subtrees() == old(ledger).subtrees()
                &&& final(snapshot).rows_view() == old(snapshot).rows_view()
                &&& next == IndexPoll::Stopped
            },
        },
{
    let revision = match &progress {
        SearchRebuildProgress::Batch { revision, .. } => *revision,
        SearchRebuildProgress::Counts { revision, .. } => *revision,
        SearchRebuildProgress::Complete { revision, .. } => *revision,
        SearchRebuildProgress::Cancelled { revision } => *revision,
        SearchRebuildProgress::Failed { revision, .. } => *revision,
    };
    if revision != index_revision {
        return IndexPoll::Continue(Vec::new());
    }
    match progress {
        SearchRebuildProgress::Batch { revision, completed, total } => {
            *status = IndexStatus::Indexing { revision, completed, total };
            IndexPoll::Continue(Vec::new())
        },
        SearchRebuildProgress::Counts { rows, .. } => {
            let ghost before = snapshot.rows_view();
            let ghost ids = row_ids(before);
            let ghost documents0 = ledger.documents();
            let ghost subtrees0 = ledger.subtrees();
            let mut changed: Vec<usize> = Vec::new();
            let mut j: usize = 0;
            while j < rows.len()
                invariant
                    j <= rows@.len(),
                    snapshot.wf(),
                    ids == row_ids(before),
                    forall|k: int|
                        0 <= k < rows@.len() && last_index(ids, #[trigger] rows@[k].node) is Some
                            ==> has_node(*tree, rows@[k].node),
                    ledger.documents() == stored_documents(documents0, rows@.take(j as int)),
                    ledger.subtrees() == stored_subtrees(subtrees0, rows@.take(j as int)),
                    refreshed_rows(before, snapshot.rows_view(), *tree, rows@.take(j as int)),
                    changed@ == named_positions(ids, rows@.take(j as int)),
                decreases rows.len() - j,
            {
                let row = rows[j];
                proof {
                    assert(rows@.take(j + 1).drop_last() =~= rows@.take(j as int));
                    assert(rows@.take(j + 1).last() == row);
                }
                if let Some(document) = row.document {
                    ledger.store_document_counts(
                        document,
                        TextStatistics { words: row.document_words, characters: row.document_characters },
                    );
                }
                ledger.store_subtree_counts(
                    row.node,
                    TextStatistics { words: row.subtree_words, characters: row.subtree_characters },
                );
                let ghost rows0 = snapshot.rows_view();
                proof {
                    lemma_last_index(ids, row.node);
                }
                match snapshot.row_for_node(row.node) {
                    Some(position) => {
                        let words = shown_word_count(row.subtree_words);
                        let shown = match binder_row(tree, row.node, 0, words) {
                            Some(shown) => shown,
                            None => {
                                proof {
                                    assert(rows@[j as int].node == row.node);
                                }
                                return vstd::pervasive::unreached();
                            },
                        };
                        snapshot.refresh_row(row.node, shown);
                        changed.push(position);
                        proof {
                            lemma_refresh_named(before, rows0, snapshot.rows_view(), *tree, rows@, j as int, shown);
                        }
                    },
                    None => {
                        proof {
                            lemma_refresh_unnamed(before, rows0, *tree, rows@, j as int);
                        }
                    },
                }
                j = j + 1;
            }
            proof {
                assert(rows@.take(j as int) =~= rows@);
            }
            IndexPoll::Continue(data_deltas(&changed))
        },
        SearchRebuildProgress::Complete { .. } => {
            *status = IndexStatus::Ready;
            IndexPoll::Completed
        },
        SearchRebuildProgress::Cancelled { .. } => IndexPoll::Stopped,
        SearchRebuildProgress::Failed { message, .. } => {
            *status = IndexStatus::Unavailable(message);
            IndexPoll::Stopped
        },
    }
}

} // verus!
