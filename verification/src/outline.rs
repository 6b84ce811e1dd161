//! The flattened outline shown by binder, outline and card views: rows in
//! display order, each node's row found by its identity, and the in-place
//! edits that keep the rows in step with the project's tree.

use crate::workspace::OutlineDelta;
use std::collections::BTreeMap;
use std::ops::Range;
use vstd::prelude::*;

verus! {

broadcast use vstd::laws_cmp::group_laws_cmp;

/// Compact row shared by binder, outline, and cards.
#[derive(Clone, Debug, Eq, PartialEq)]
pub struct BinderRow {
    pub id: u128,
    pub parent: Option<u128>,
    pub depth: u16,
    pub is_group: bool,
    pub is_root: bool,
    pub has_children: bool,
    pub title: String,
    pub synopsis: String,
    pub status: String,
    pub label: String,
    pub word_count: usize,
    pub include_in_compile: bool,
}

/// The node identities of `rows`, in row order.
pub open spec fn row_ids(rows: Seq<BinderRow>) -> Seq<u128> {
    rows.map_values(|row: BinderRow| row.id)
}

/// The last index at which `id` occurs in `ids`.
pub open spec fn last_index(ids: Seq<u128>, id: u128) -> Option<int>
    decreases ids.len(),
{
    if ids.len() == 0 {
        None
    } else if ids.last() == id {
        Some(ids.len() - 1)
    } else {
        last_index(ids.drop_last(), id)
    }
}

/// Each identity mapped to the last row that holds it.
pub open spec fn index_map(ids: Seq<u128>) -> Map<u128, usize> {
    Map::new(|id: u128| last_index(ids, id) is Some, |id: u128| (last_index(ids, id)->0) as usize)
}

pub proof fn lemma_last_index(ids: Seq<u128>, id: u128)
    ensures
        match last_index(ids, id) {
            Some(i) => 0 <= i < ids.len() && ids[i] == id && forall|j: int|
                i < j < ids.len() ==> ids[j] != id,
            None => forall|j: int| 0 <= j < ids.len() ==> ids[j] != id,
        },
    decreases ids.len(),
{
    if ids.len() > 0 {
        let front = ids.drop_last();
        lemma_last_index(front, id);
        assert forall|j: int| 0 <= j < front.len() implies ids[j] == front[j] by {}
    }
}

/// The first row at or after `j` that is no deeper than `depth`, or the
/// number of rows when there is none.
pub open spec fn subtree_end(rows: Seq<BinderRow>, depth: u16, j: int) -> int
    decreases rows.len() - j,
{
    if j >= rows.len() {
        rows.len() as int
    } else if rows[j].depth <= depth {
        j
    } else {
        subtree_end(rows, depth, j + 1)
    }
}

pub proof fn lemma_subtree_end(rows: Seq<BinderRow>, depth: u16, j: int)
    requires
        0 <= j <= rows.len(),
    ensures
        j <= subtree_end(rows, depth, j) <= rows.len(),
        forall|k: int| j <= k < subtree_end(rows, depth, j) ==> rows[k].depth > depth,
        subtree_end(rows, depth, j) == rows.len() || rows[subtree_end(rows, depth, j)].depth
            <= depth,
    decreases rows.len() - j,
{
    if j < rows.len() && rows[j].depth > depth {
        lemma_subtree_end(rows, depth, j + 1);
    }
}

/// The rows `[start, end)` that show `id` and its descendants: the row of
/// `id` and every following row deeper than it.
pub open spec fn subtree_span(rows: Seq<BinderRow>, id: u128) -> Option<(int, int)> {
    match last_index(row_ids(rows), id) {
        Some(start) => Some((start, subtree_end(rows, rows[start].depth, start + 1))),
        None => None,
    }
}

/// Where a subtree is inserted: directly after its parent's row when it is
/// the first child, else after the rows of its previous sibling.
pub open spec fn insertion_point(rows: Seq<BinderRow>, parent: u128, previous: Option<u128>) -> Option<
    int,
> {
    match previous {
        None => match last_index(row_ids(rows), parent) {
            Some(row) => Some(row + 1),
            None => None,
        },
        Some(sibling) => match subtree_span(rows, sibling) {
            Some((_, end)) => Some(end),
            None => None,
        },
    }
}

/// `depth` moved by the distance from `source` to `target`, saturating at
/// both ends of the range.
pub open spec fn shifted_depth(depth: u16, source: u16, target: u16) -> u16 {
    if target >= source {
        if depth + (target - source) > u16::MAX {
            u16::MAX
        } else {
            (depth + (target - source)) as u16
        }
    } else {
        if depth < source - target {
            0
        } else {
            (depth - (source - target)) as u16
        }
    }
}

/// `row` with its depth shifted and, for the first row of a block, its
/// parent replaced when `first_parent` is given.
pub open spec fn relocated(
    row: BinderRow,
    first: bool,
    source: u16,
    target: u16,
    first_parent: Option<u128>,
) -> BinderRow {
    BinderRow {
        id: row.id,
        parent: if first && first_parent is Some {
            first_parent
        } else {
            row.parent
        },
        depth: shifted_depth(row.depth, source, target),
        is_group: row.is_group,
        is_root: row.is_root,
        has_children: row.has_children,
        title: row.title,
        synopsis: row.synopsis,
        status: row.status,
        label: row.label,
        word_count: row.word_count,
        include_in_compile: row.include_in_compile,
    }
}

/// Every row of `rows` relocated.
pub open spec fn relocated_rows(
    rows: Seq<BinderRow>,
    source: u16,
    target: u16,
    first_parent: Option<u128>,
) -> Seq<BinderRow> {
    Seq::new(rows.len(), |k: int| relocated(rows[k], k == 0, source, target, first_parent))
}

fn relocate_rows(
    rows: Vec<BinderRow>,
    source: u16,
    target: u16,
    first_parent: Option<u128>,
) -> (out: Vec<BinderRow>)
    ensures
        out@ == relocated_rows(rows@, source, target, first_parent),
{
    let ghost input = rows@;
    let mut out: Vec<BinderRow> = Vec::new();
    for row in it: rows.into_iter()
        invariant
            it.seq() == input,
            out@.len() == it.index(),
            forall|k: int|
                0 <= k < out@.len() ==> out@[k] == relocated(
                    input[k],
                    k == 0,
                    source,
                    target,
                    first_parent,
                ),
    {
        let mut row = row;
        row.depth = if target >= source {
            row.depth.saturating_add(target - source)
        } else {
            row.depth.saturating_sub(source - target)
        };
        if out.len() == 0 {
            if let Some(parent) = first_parent {
                row.parent = Some(parent);
            }
        }
        out.push(row);
    }
    assert(out@ =~= relocated_rows(input, source, target, first_parent));
    out
}

/// `rows` without the rows `[start, end)`.
pub open spec fn without_span(rows: Seq<BinderRow>, start: int, end: int) -> Seq<BinderRow> {
    rows.subrange(0, start) + rows.subrange(end, rows.len() as int)
}

/// `rows` with `block` inserted before row `at`.
pub open spec fn spliced(rows: Seq<BinderRow>, at: int, block: Seq<BinderRow>) -> Seq<BinderRow> {
    rows.subrange(0, at) + block + rows.subrange(at, rows.len() as int)
}

pub proof fn lemma_insertion_point_bound(rows: Seq<BinderRow>, parent: u128, previous: Option<u128>)
    ensures
        insertion_point(rows, parent, previous) matches Some(at) ==> 0 <= at <= rows.len(),
{
    lemma_last_index(row_ids(rows), parent);
    if let Some(sibling) = previous {
        lemma_last_index(row_ids(rows), sibling);
        if let Some(start) = last_index(row_ids(rows), sibling) {
            lemma_subtree_end(rows, rows[start].depth, start + 1);
        }
    }
}

fn splice_rows(rows: &mut Vec<BinderRow>, at: usize, block: Vec<BinderRow>)
    requires
        at <= old(rows)@.len(),
    ensures
        final(rows)@ == spliced(old(rows)@, at as int, block@),
{
    let mut block = block;
    let mut tail = rows.split_off(at);
    rows.append(&mut block);
    rows.append(&mut tail);
}

/// A move of `node` under `parent`, after `previous`, finds its parent's
/// row once the moved rows are taken out whenever it finds a place for
/// them.
pub open spec fn move_finds_parent(
    rows: Seq<BinderRow>,
    node: u128,
    parent: u128,
    previous: Option<u128>,
) -> bool {
    match subtree_span(rows, node) {
        Some((start, end)) => {
            let rest = without_span(rows, start, end);
            insertion_point(rest, parent, previous) is Some ==> last_index(row_ids(rest), parent) is Some
        },
        None => true,
    }
}

proof fn lemma_row_ids_add(a: Seq<BinderRow>, b: Seq<BinderRow>)
    ensures
        row_ids(a + b) == row_ids(a) + row_ids(b),
{
    assert(row_ids(a + b) =~= row_ids(a) + row_ids(b));
}

proof fn lemma_relocation_keeps_rows(
    rows: Seq<BinderRow>,
    start: int,
    end: int,
    at: int,
    source: u16,
    target: u16,
    first_parent: Option<u128>,
)
    requires
        0 <= start <= end <= rows.len(),
        0 <= at <= rows.len() - (end - start),
    ensures
        ({
            let out = spliced(
                without_span(rows, start, end),
                at,
                relocated_rows(rows.subrange(start, end), source, target, first_parent),
            );
            &&& out.len() == rows.len()
            &&& row_ids(out).to_multiset() == row_ids(rows).to_multiset()
        }),
{
    broadcast use vstd::seq_lib::lemma_multiset_commutative;

    let a = rows.subrange(0, start);
    let b = rows.subrange(start, end);
    let c = rows.subrange(end, rows.len() as int);
    let rest = without_span(rows, start, end);
    let moved = relocated_rows(b, source, target, first_parent);
    let x = rest.subrange(0, at);
    let y = rest.subrange(at, rest.len() as int);
    assert(rows =~= a + b + c);
    assert(rest =~= x + y);
    assert(row_ids(moved) =~= row_ids(b));
    lemma_row_ids_add(a + b, c);
    lemma_row_ids_add(a, b);
    lemma_row_ids_add(a, c);
    lemma_row_ids_add(x, y);
    lemma_row_ids_add(x + moved, y);
    lemma_row_ids_add(x, moved);
    assert(row_ids(rest).to_multiset() == row_ids(a).to_multiset().add(row_ids(c).to_multiset()));
    assert(row_ids(rest).to_multiset() == row_ids(x).to_multiset().add(row_ids(y).to_multiset()));
    assert(row_ids(rows).to_multiset() =~= row_ids(a).to_multiset().add(
        row_ids(b).to_multiset(),
    ).add(row_ids(c).to_multiset()));
    assert(row_ids(spliced(rest, at, moved)).to_multiset() =~= row_ids(x).to_multiset().add(
        row_ids(b).to_multiset(),
    ).add(row_ids(y).to_multiset()));
    let whole = row_ids(rows).to_multiset();
    let out = row_ids(spliced(rest, at, moved)).to_multiset();
    assert forall|v: u128| out.count(v) == whole.count(v) by {
        assert(row_ids(rest).to_multiset().count(v) == row_ids(a).to_multiset().count(v)
            + row_ids(c).to_multiset().count(v));
        assert(row_ids(rest).to_multiset().count(v) == row_ids(x).to_multiset().count(v)
            + row_ids(y).to_multiset().count(v));
    }
    assert(out =~= whole);
    assert(spliced(rest, at, moved).len() == rows.len());
}

/// Why an outline edit could not be applied to the rows.
#[derive(Clone, Copy, Debug, PartialEq, Eq)]
pub enum OutlineError {
    /// The parent's row is not shown.
    ParentRowAbsent,
    /// The previous sibling's row is not shown.
    PreviousRowAbsent,
    /// The row to remove or move is not shown.
    RowAbsent,
}

/// Immutable snapshot used by virtualized views: the rows in display order
/// and, for each node, the row that shows it.
#[derive(Clone, Debug, Default, Eq, PartialEq)]
pub struct BinderSnapshot {
    rows: Vec<BinderRow>,
    positions: BTreeMap<u128, usize>,
}

impl BinderSnapshot {
    /// The rows, in display order.
    pub closed spec fn rows_view(&self) -> Seq<BinderRow> {
        self.rows@
    }

    /// The row index lookup agrees with the rows.
    pub closed spec fn wf(&self) -> bool {
        &&& self.positions@ == index_map(row_ids(self.rows@))
        &&& self.rows@.len() <= usize::MAX
    }

    /// The row that shows `id`, if any.
    pub open spec fn row_of(&self, id: u128) -> Option<int> {
        last_index(row_ids(self.rows_view()), id)
    }

    fn rebuild_positions(&mut self)
        ensures
            final(self).rows@ == old(self).rows@,
            final(self).wf(),
    {
        let mut positions: BTreeMap<u128, usize> = BTreeMap::new();
        let mut i: usize = 0;
        while i < self.rows.len()
            invariant
                i <= self.rows@.len(),
                positions@ == index_map(row_ids(self.rows@.take(i as int))),
            decreases self.rows.len() - i,
        {
            let id = self.rows[i].id;
            positions.insert(id, i);
            proof {
                let before = row_ids(self.rows@.take(i as int));
                let after = row_ids(self.rows@.take(i + 1));
                assert(after.drop_last() =~= before);
                assert(after.last() == id);
                assert(positions@ =~= index_map(after));
            }
            i = i + 1;
        }
        assert(self.rows@.take(i as int) =~= self.rows@);
        self.positions = positions;
    }

    /// A snapshot showing `rows` in the given order.
    pub fn from_rows(rows: Vec<BinderRow>) -> (s: Self)
        ensures
            s.wf(),
            s.rows_view() == rows@,
    {
        let mut s = BinderSnapshot { rows, positions: BTreeMap::new() };
        s.rebuild_positions();
        s
    }

    /// All rows, in display order.
    pub fn rows(&self) -> (r: &[BinderRow])
        ensures
            r@ == self.rows_view(),
    {
        self.rows.as_slice()
    }

    /// Up to `count` rows from `start`, clamped to the rows that exist.
    pub fn visible_rows(&self, start: usize, count: usize) -> (r: &[BinderRow])
        ensures
            ({
                let len = self.rows_view().len() as int;
                let first = if start < len { start as int } else { len };
                let last = if first + count < len { first + count } else { len };
                r@ == self.rows_view().subrange(first, last)
            }),
    {
        let len = self.rows.len();
        let start = if start < len { start } else { len };
        let end = if count < len - start { start + count } else { len };
        vstd::slice::slice_subrange(self.rows.as_slice(), start, end)
    }

    /// How many rows there are.
    pub fn len(&self) -> (n: usize)
        ensures
            n == self.rows_view().len(),
    {
        self.rows.len()
    }

    /// Whether there are no rows.
    pub fn is_empty(&self) -> (b: bool)
        ensures
            b == (self.rows_view().len() == 0),
    {
        self.rows.len() == 0
    }

    /// The row that shows `node`.
    pub fn row_for_node(&self, node: u128) -> (r: Option<usize>)
        requires
            self.wf(),
        ensures
            match r {
                Some(i) => self.row_of(node) == Some(i as int),
                None => self.row_of(node) is None,
            },
    {
        proof {
            lemma_last_index(row_ids(self.rows@), node);
        }
        match self.positions.get(&node) {
            Some(row) => Some(*row),
            None => None,
        }
    }

    /// The rows that show `node` and its descendants: its own row and every
    /// following row deeper than it.
    pub fn subtree_range(&self, node: u128) -> (r: Option<Range<usize>>)
        requires
            self.wf(),
        ensures
            match r {
                Some(range) => {
                    &&& subtree_span(self.rows_view(), node) == Some(
                        (range.start as int, range.end as int),
                    )
                    &&& range.start < range.end <= self.rows_view().len()
                },
                None => subtree_span(self.rows_view(), node) is None,
            },
    {
        let len = self.rows.len();
        let start = match self.row_for_node(node) {
            Some(start) => start,
            None => return None,
        };
        proof {
            lemma_last_index(row_ids(self.rows@), node);
        }
        let depth = self.rows[start].depth;
        let mut end = start + 1;
        while end < len && self.rows[end].depth > depth
            invariant
                len == self.rows@.len(),
                start < end <= self.rows@.len(),
                depth == self.rows@[start as int].depth,
                subtree_end(self.rows@, depth, start + 1) == subtree_end(
                    self.rows@,
                    depth,
                    end as int,
                ),
            decreases len - end,
        {
            end = end + 1;
        }
        Some(start..end)
    }

    /// The row before which a node is inserted: right after its parent's
    /// row when it has no previous sibling, else right after the rows of
    /// that sibling.
    pub fn insertion_row(&self, parent: u128, previous: Option<u128>) -> (r: Result<
        usize,
        OutlineError,
    >)
        requires
            self.wf(),
        ensures
            match r {
                Ok(row) => insertion_point(self.rows_view(), parent, previous) == Some(row as int),
                Err(e) => insertion_point(self.rows_view(), parent, previous) is None && e == (
                if previous is None {
                    OutlineError::ParentRowAbsent
                } else {
                    OutlineError::PreviousRowAbsent
                }),
            },
    {
        match previous {
            None => match self.row_for_node(parent) {
                Some(row) => {
                    proof {
                        lemma_last_index(row_ids(self.rows@), parent);
                    }
                    Ok(row + 1)
                },
                None => Err(OutlineError::ParentRowAbsent),
            },
            Some(sibling) => match self.subtree_range(sibling) {
                Some(range) => Ok(range.end),
                None => Err(OutlineError::PreviousRowAbsent),
            },
        }
    }

    /// The depth of a child of `parent`: one below the parent's row.
    pub fn child_depth(&self, parent: u128) -> (r: Option<u16>)
        requires
            self.wf(),
        ensures
            match self.row_of(parent) {
                Some(row) => r == Some(shifted_depth(self.rows_view()[row].depth, 0, 1)),
                None => r is None,
            },
    {
        match self.row_for_node(parent) {
            Some(row) => {
                proof {
                    lemma_last_index(row_ids(self.rows@), parent);
                }
                Some(self.rows[row].depth.saturating_add(1))
            },
            None => None,
        }
    }

    /// Shows `row` in place of the row of `node`, keeping that row's node
    /// and depth; `None` when `node` has no row.
    pub fn refresh_row(&mut self, node: u128, row: BinderRow) -> (r: Option<OutlineDelta>)
        requires
            old(self).wf(),
        ensures
            final(self).wf(),
            match old(self).row_of(node) {
                Some(i) => {
                    &&& r == Some(OutlineDelta::Data { first: i as usize, count: 1 })
                    &&& final(self).rows_view() == old(self).rows_view().update(
                        i,
                        BinderRow { id: node, depth: old(self).rows_view()[i].depth, ..row },
                    )
                },
                None => r is None && final(self).rows_view() == old(self).rows_view(),
            },
    {
        let index = match self.row_for_node(node) {
            Some(index) => index,
            None => return None,
        };
        proof {
            lemma_last_index(row_ids(self.rows@), node);
        }
        let mut row = row;
        row.id = node;
        row.depth = self.rows[index].depth;
        let ghost before = self.rows@;
        self.rows.set(index, row);
        proof {
            assert(row_ids(self.rows@) =~= row_ids(before));
        }
        Some(OutlineDelta::Data { first: index, count: 1 })
    }

    /// Removes the rows of `node` and its descendants.
    pub fn remove_subtree(&mut self, node: u128) -> (r: Option<OutlineDelta>)
        requires
            old(self).wf(),
        ensures
            final(self).wf(),
            match subtree_span(old(self).rows_view(), node) {
                Some((start, end)) => {
                    &&& r == Some(
                        OutlineDelta::Remove { first: start as usize, count: (end - start) as usize },
                    )
                    &&& final(self).rows_view() == old(self).rows_view().subrange(0, start)
                        + old(self).rows_view().subrange(end, old(self).rows_view().len() as int)
                },
                None => r is None && final(self).rows_view() == old(self).rows_view(),
            },
    {
        let range = match self.subtree_range(node) {
            Some(range) => range,
            None => return None,
        };
        let first = range.start;
        let count = range.end - range.start;
        let mut tail = self.rows.split_off(range.end);
        let _removed = self.rows.split_off(first);
        self.rows.append(&mut tail);
        self.rebuild_positions();
        Some(OutlineDelta::Remove { first, count })
    }

    /// Shows the rows of an inserted subtree: `subtree` holds them in
    /// display order, with depths counted from the subtree's root, and they
    /// go where `insertion_row` says, one level below the parent's row.
    pub fn insert_subtree(
        &mut self,
        parent: u128,
        previous: Option<u128>,
        subtree: Vec<BinderRow>,
    ) -> (r: Result<OutlineDelta, OutlineError>)
        requires
            old(self).wf(),
        ensures
            final(self).wf(),
            match insertion_point(old(self).rows_view(), parent, previous) {
                None => {
                    &&& r == Err::<OutlineDelta, OutlineError>(
                        if previous is None {
                            OutlineError::ParentRowAbsent
                        } else {
                            OutlineError::PreviousRowAbsent
                        },
                    )
                    &&& final(self).rows_view() == old(self).rows_view()
                },
                Some(at) => match old(self).row_of(parent) {
                    None => r == Err::<OutlineDelta, OutlineError>(OutlineError::ParentRowAbsent)
                        && final(self).rows_view() == old(self).rows_view(),
                    Some(row) => {
                        &&& r == Ok::<OutlineDelta, OutlineError>(
                            OutlineDelta::Insert { first: at as usize, count: subtree@.len() as usize },
                        )
                        &&& final(self).rows_view() == spliced(
                            old(self).rows_view(),
                            at,
                            relocated_rows(
                                subtree@,
                                0,
                                shifted_depth(old(self).rows_view()[row].depth, 0, 1),
                                None,
                            ),
                        )
                    },
                },
            },
    {
        let destination = match self.insertion_row(parent, previous) {
            Ok(destination) => destination,
            Err(e) => return Err(e),
        };
        let depth = match self.child_depth(parent) {
            Some(depth) => depth,
            None => return Err(OutlineError::ParentRowAbsent),
        };
        proof {
            lemma_insertion_point_bound(self.rows@, parent, previous);
        }
        let rows = relocate_rows(subtree, 0, depth, None);
        let count = rows.len();
        splice_rows(&mut self.rows, destination, rows);
        self.rebuild_positions();
        Ok(OutlineDelta::Insert { first: destination, count })
    }

    /// Moves the rows of `node` and its descendants to where `node` now
    /// belongs, under `parent` and after `previous`, shifting their depths
    /// by the change of level. Also returns the parent the node's row showed
    /// before. When no place is found the moved rows stay taken out.
    pub fn move_subtree(&mut self, node: u128, parent: u128, previous: Option<u128>) -> (r: Result<
        (OutlineDelta, Option<u128>),
        OutlineError,
    >)
        requires
            old(self).wf(),
            move_finds_parent(old(self).rows_view(), node, parent, previous),
        ensures
            final(self).wf(),
            match subtree_span(old(self).rows_view(), node) {
                None => r == Err::<(OutlineDelta, Option<u128>), OutlineError>(
                    OutlineError::RowAbsent,
                ) && final(self).rows_view() == old(self).rows_view(),
                Some((start, end)) => {
                    let rest = without_span(old(self).rows_view(), start, end);
                    let moved = old(self).rows_view().subrange(start, end);
                    match insertion_point(rest, parent, previous) {
                        None => {
                            &&& r == Err::<(OutlineDelta, Option<u128>), OutlineError>(
                                if previous is None {
                                    OutlineError::ParentRowAbsent
                                } else {
                                    OutlineError::PreviousRowAbsent
                                },
                            )
                            &&& final(self).rows_view() == rest
                        },
                        Some(at) => {
                            let parent_row = last_index(row_ids(rest), parent)->0;
                            &&& r == Ok::<(OutlineDelta, Option<u128>), OutlineError>(
                                (
                                    OutlineDelta::Move {
                                        first: start as usize,
                                        destination: at as usize,
                                        count: (end - start) as usize,
                                    },
                                    moved[0].parent,
                                ),
                            )
                            &&& final(self).rows_view() == spliced(
                                rest,
                                at,
                                relocated_rows(
                                    moved,
                                    moved[0].depth,
                                    shifted_depth(rest[parent_row].depth, 0, 1),
                                    Some(parent),
                                ),
                            )
                        },
                    }
                },
            },
            r is Ok ==> final(self).rows_view().len() == old(self).rows_view().len() && row_ids(
                final(self).rows_view(),
            ).to_multiset() == row_ids(old(self).rows_view()).to_multiset(),
    {
        let range = match self.subtree_range(node) {
            Some(range) => range,
            None => return Err(OutlineError::RowAbsent),
        };
        let first = range.start;
        let ghost before = self.rows@;
        let mut tail = self.rows.split_off(range.end);
        let moved = self.rows.split_off(first);
        self.rows.append(&mut tail);
        assert(self.rows@ =~= without_span(before, first as int, range.end as int));
        assert(moved@ =~= before.subrange(first as int, range.end as int));
        self.rebuild_positions();
        let old_parent = moved[0].parent;
        let source_depth = moved[0].depth;
        let count = moved.len();
        let destination = match self.insertion_row(parent, previous) {
            Ok(destination) => destination,
            Err(e) => return Err(e),
        };
        let target_depth = match self.child_depth(parent) {
            Some(depth) => depth,
            None => return Err(OutlineError::ParentRowAbsent),
        };
        proof {
            lemma_insertion_point_bound(self.rows@, parent, previous);
        }
        proof {
            lemma_relocation_keeps_rows(
                before,
                first as int,
                range.end as int,
                destination as int,
                source_depth,
                target_depth,
                Some(parent),
            );
        }
        let moved = relocate_rows(moved, source_depth, target_depth, Some(parent));
        splice_rows(&mut self.rows, destination, moved);
        self.rebuild_positions();
        Ok((OutlineDelta::Move { first, destination, count }, old_parent))
    }
}

} // verus!
