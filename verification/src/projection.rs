//! The outline projection: the rows shown for a project tree, in binder
//! order or sorted by title or status, optionally narrowed to the nodes that
//! match a filter and their ancestors.
//!
//! The tree is read as plain values: each node's place in the tree, whether
//! it is in the trash, and the document metadata the rows show.

use crate::chars::{chars_of, contains_chars, contains_subseq, string_from_chars, trim_whitespace, trim_whitespace_spec};
use crate::outline::{BinderRow, BinderSnapshot};
use crate::workspace::{OutlineSort, PaneView};
use std::collections::{BTreeMap, BTreeSet};
use vstd::prelude::*;

verus! {

broadcast use vstd::laws_cmp::group_laws_cmp;

/// The metadata of the document behind a node.
#[derive(Clone, Debug, Eq, PartialEq)]
pub struct NodeMetadata {
    pub title: String,
    pub summary: String,
    pub status: Option<String>,
    pub labels: Vec<String>,
    /// The `include-in-compile` flag, when it is set.
    pub include_in_compile: Option<bool>,
    /// The document is an imported attachment.
    pub has_attachment: bool,
}

/// One node of the project tree, as the outline reads it.
#[derive(Clone, Debug, Eq, PartialEq)]
pub struct OutlineNode {
    pub parent: Option<u128>,
    pub children: Vec<u128>,
    /// The node is in the trash.
    pub trashed: bool,
    /// The node is a group.
    pub is_group: bool,
    /// The node is one of the project's built-in roots.
    pub is_root: bool,
    /// The key of a built-in root.
    pub root_key: Option<String>,
    /// The node's identity as text.
    pub identity_text: String,
    /// The metadata of the node's document, if it has one.
    pub metadata: Option<NodeMetadata>,
}

/// The project tree: its roots in order, and every node by identity.
#[derive(Clone, Debug, Eq, PartialEq)]
pub struct OutlineTree {
    pub roots: Vec<u128>,
    pub nodes: BTreeMap<u128, OutlineNode>,
}

/// The lowercase form of a text (`str::to_lowercase`).
pub uninterp spec fn lowercase(text: Seq<char>) -> Seq<char>;

/// Calls `str::to_lowercase`; the result is named `lowercase(text)`.
#[verifier::external_body]
fn to_lowercase(text: &str) -> (r: String)
    ensures
        r@ == lowercase(text@),
{
    text.to_lowercase()
}

pub open spec fn has_node(tree: OutlineTree, id: u128) -> bool {
    tree.nodes@.dom().contains(id)
}

pub open spec fn node(tree: OutlineTree, id: u128) -> OutlineNode {
    tree.nodes@[id]
}

/// The text of an optional string, empty when absent.
pub open spec fn text_or_empty(text: Option<String>) -> Seq<char> {
    match text {
        Some(t) => t@,
        None => Seq::empty(),
    }
}

/// `row` shows node `id` at `depth` with `word_count` words: its place in
/// the tree, and its document's title (or the built-in root's key, or
/// `root`), summary, status, first label and compile flag.
pub open spec fn shows_node(
    row: BinderRow,
    tree: OutlineTree,
    id: u128,
    depth: u16,
    word_count: usize,
) -> bool {
    let n = node(tree, id);
    &&& row.id == id
    &&& row.parent == n.parent
    &&& row.depth == depth
    &&& row.is_group == n.is_group
    &&& row.is_root == n.is_root
    &&& row.has_children == (n.children@.len() > 0)
    &&& row.word_count == word_count
    &&& match n.metadata {
        Some(m) => {
            &&& row.title@ == m.title@
            &&& row.synopsis@ == m.summary@
            &&& row.status@ == text_or_empty(m.status)
            &&& row.label@ == if m.labels@.len() > 0 {
                m.labels@[0]@
            } else {
                Seq::empty()
            }
            &&& row.include_in_compile == (m.include_in_compile == Some(true))
        },
        None => {
            &&& row.title@ == match n.root_key {
                Some(key) => key@,
                None => "root"@,
            }
            &&& row.synopsis@.len() == 0
            &&& row.status@.len() == 0
            &&& row.label@.len() == 0
            &&& !row.include_in_compile
        },
    }
}

fn text_of(text: &Option<String>) -> (r: String)
    ensures
        r@ == text_or_empty(*text),
{
    match text {
        Some(t) => t.clone(),
        None => String::new(),
    }
}

/// The row that shows node `id`.
pub fn binder_row(tree: &OutlineTree, id: u128, depth: u16, word_count: usize) -> (r: Option<BinderRow>)
    ensures
        match r {
            Some(row) => has_node(*tree, id) && shows_node(row, *tree, id, depth, word_count),
            None => !has_node(*tree, id),
        },
{
    let n = match tree.nodes.get(&id) {
        Some(n) => n,
        None => return None,
    };
    let (title, synopsis, status, label, include_in_compile) = match &n.metadata {
        Some(m) => {
            let label = if m.labels.len() > 0 {
                m.labels[0].clone()
            } else {
                String::new()
            };
            let compiled = match m.include_in_compile {
                Some(flag) => flag,
                None => false,
            };
            (m.title.clone(), m.summary.clone(), text_of(&m.status), label, compiled)
        },
        None => {
            let title = match &n.root_key {
                Some(key) => key.clone(),
                None => "root".to_owned(),
            };
            (title, String::new(), String::new(), String::new(), false)
        },
    };
    Some(
        BinderRow {
            id,
            parent: n.parent,
            depth,
            is_group: n.is_group,
            is_root: n.is_root,
            has_children: n.children.len() > 0,
            title,
            synopsis,
            status,
            label,
            word_count,
            include_in_compile,
        },
    )
}

/// Node `id` matches the lowercase `query`: some text of its document
/// (title, summary, status or a label) contains it once lowercased, or, for
/// a node without a document, its identity text contains it.
pub open spec fn matches_query(tree: OutlineTree, id: u128, query: Seq<char>) -> bool {
    match node(tree, id).metadata {
        None => contains_subseq(node(tree, id).identity_text@, query),
        Some(m) => {
            ||| contains_subseq(lowercase(m.title@), query)
            ||| contains_subseq(lowercase(m.summary@), query)
            ||| contains_subseq(lowercase(text_or_empty(m.status)), query)
            ||| exists|i: int|
                0 <= i < m.labels@.len() && contains_subseq(lowercase(#[trigger] m.labels@[i]@), query)
        },
    }
}

fn lower_contains(text: &str, query: &Vec<char>) -> (r: bool)
    ensures
        r == contains_subseq(lowercase(text@), query@),
{
    let lower = to_lowercase(text);
    contains_chars(&chars_of(lower.as_str()), query)
}

fn matches_row(n: &OutlineNode, query: &Vec<char>) -> (r: bool)
    ensures
        r == match n.metadata {
            None => contains_subseq(n.identity_text@, query@),
            Some(m) => {
                ||| contains_subseq(lowercase(m.title@), query@)
                ||| contains_subseq(lowercase(m.summary@), query@)
                ||| contains_subseq(lowercase(text_or_empty(m.status)), query@)
                ||| exists|i: int|
                    0 <= i < m.labels@.len() && contains_subseq(
                        lowercase(#[trigger] m.labels@[i]@),
                        query@,
                    )
            },
        },
{
    let m = match &n.metadata {
        None => return contains_chars(&chars_of(n.identity_text.as_str()), query),
        Some(m) => m,
    };
    if lower_contains(m.title.as_str(), query) || lower_contains(m.summary.as_str(), query) {
        return true;
    }
    let status = text_of(&m.status);
    if lower_contains(status.as_str(), query) {
        return true;
    }
    let mut i: usize = 0;
    while i < m.labels.len()
        invariant
            i <= m.labels@.len(),
            n.metadata == Some(*m),
            !contains_subseq(lowercase(m.title@), query@),
            !contains_subseq(lowercase(m.summary@), query@),
            !contains_subseq(lowercase(text_or_empty(m.status)), query@),
            forall|j: int| 0 <= j < i ==> !contains_subseq(lowercase(#[trigger] m.labels@[j]@), query@),
        decreases m.labels.len() - i,
    {
        if lower_contains(m.labels[i].as_str(), query) {
            assert(contains_subseq(lowercase(m.labels@[i as int]@), query@));
            return true;
        }
        i = i + 1;
    }
    false
}

/// `a` comes no later than `b` in lexicographic order of characters, the
/// order of `String`'s comparison.
pub open spec fn lex_le(a: Seq<char>, b: Seq<char>) -> bool
    decreases a.len(),
{
    if a.len() == 0 {
        true
    } else if b.len() == 0 {
        false
    } else if a[0] != b[0] {
        a[0] <= b[0]
    } else {
        lex_le(a.drop_first(), b.drop_first())
    }
}

/// `k` is the first position of `a` at which `b` differs from it (or has
/// ended).
pub open spec fn first_difference(a: Seq<char>, b: Seq<char>, k: int) -> bool {
    &&& 0 <= k < a.len()
    &&& k <= b.len()
    &&& (k == b.len() || a[k] != b[k])
    &&& forall|j: int| 0 <= j < k ==> a[j] == b[j]
}

proof fn lemma_agree_before(a: Seq<char>, b: Seq<char>, k: int, j: int)
    requires
        first_difference(a, b, k),
        0 <= j < k,
    ensures
        j < b.len() && a[j] == b[j],
{
    assert(a[j] == b[j]);
}

proof fn lemma_first_difference_shift(a: Seq<char>, b: Seq<char>, k: int)
    requires
        a.len() > 0,
        b.len() > 0,
        a[0] == b[0],
    ensures
        first_difference(a, b, k) ==> k > 0 && first_difference(a.drop_first(), b.drop_first(), k - 1),
        first_difference(a.drop_first(), b.drop_first(), k - 1) ==> first_difference(a, b, k),
{
    let a1 = a.drop_first();
    let b1 = b.drop_first();
    if first_difference(a, b, k) {
        if k == 0 {
            assert(a[0] == b[0]);
        }
        assert forall|j: int| 0 <= j < k - 1 implies #[trigger] a1[j] == b1[j] by {
            lemma_agree_before(a, b, k, j + 1);
        }
    }
    if first_difference(a1, b1, k - 1) {
        assert forall|j: int| 0 <= j < k implies #[trigger] a[j] == b[j] by {
            if j > 0 {
                lemma_agree_before(a1, b1, k - 1, j - 1);
            }
        }
    }
}

/// The character order of texts: `a` comes no later than `b` exactly when,
/// at the first position where they differ, `a`'s character is smaller
/// (and `b` has one there); with no difference, `a` is a prefix of `b`.
pub proof fn lemma_lex_le_meaning(a: Seq<char>, b: Seq<char>)
    ensures
        lex_le(a, b) <==> forall|k: int| #[trigger] first_difference(a, b, k) ==> k < b.len() && a[k] < b[k],
    decreases a.len(),
{
    if a.len() == 0 {
    } else if b.len() == 0 {
        assert(first_difference(a, b, 0));
    } else if a[0] != b[0] {
        assert(first_difference(a, b, 0));
        assert forall|k: int| #[trigger] first_difference(a, b, k) implies k == 0 by {
            if k > 0 {
                assert(0 < b.len() && a[0] == b[0]);
            }
        }
    } else {
        let a1 = a.drop_first();
        let b1 = b.drop_first();
        lemma_lex_le_meaning(a1, b1);
        assert forall|k: int| #[trigger] first_difference(a, b, k) implies k > 0 && first_difference(
            a1,
            b1,
            k - 1,
        ) by {
            lemma_first_difference_shift(a, b, k);
        }
        if lex_le(a, b) {
            assert forall|k: int| #[trigger] first_difference(a, b, k) implies k < b.len() && a[k] < b[k] by {
                lemma_first_difference_shift(a, b, k);
                assert(a1[k - 1] == a[k]);
                if k - 1 < b1.len() {
                    assert(b1[k - 1] == b[k]);
                }
            }
        } else {
            let k = choose|k: int| #[trigger] first_difference(a1, b1, k) && !(k < b1.len() && a1[k] < b1[k]);
            lemma_first_difference_shift(a, b, k + 1);
            assert(first_difference(a, b, k + 1));
            assert(a1[k] == a[k + 1]);
            if k < b1.len() {
                assert(b1[k] == b[k + 1]);
            }
        }
    }
}

/// Pairs ordered by their first text, then by their second.
pub open spec fn key_le(a: (Seq<char>, Seq<char>), b: (Seq<char>, Seq<char>)) -> bool {
    if a.0 == b.0 {
        lex_le(a.1, b.1)
    } else {
        lex_le(a.0, b.0)
    }
}

/// The lowercase title of a node's document, empty without one.
pub open spec fn title_key(tree: OutlineTree, id: u128) -> Seq<char> {
    match node(tree, id).metadata {
        Some(m) => lowercase(m.title@),
        None => Seq::empty(),
    }
}

/// The key a node is sorted by: its lowercase title for the title order;
/// its lowercase status, then title, for the status order.
pub open spec fn sort_key(tree: OutlineTree, id: u128, sort: OutlineSort) -> (Seq<char>, Seq<char>) {
    match sort {
        OutlineSort::Binder => (Seq::empty(), Seq::empty()),
        OutlineSort::Title => (Seq::empty(), title_key(tree, id)),
        OutlineSort::Status => (
            match node(tree, id).metadata {
                Some(m) => match m.status {
                    Some(status) => lowercase(status@),
                    None => Seq::empty(),
                },
                None => Seq::empty(),
            },
            title_key(tree, id),
        ),
    }
}

/// `sorted` with `x` placed after every element whose key is no greater.
pub open spec fn insert_by_key(
    sorted: Seq<u128>,
    x: u128,
    keys: spec_fn(u128) -> (Seq<char>, Seq<char>),
) -> Seq<u128>
    decreases sorted.len(),
{
    if sorted.len() == 0 {
        seq![x]
    } else if key_le(keys(sorted.last()), keys(x)) {
        sorted.push(x)
    } else {
        insert_by_key(sorted.drop_last(), x, keys).push(sorted.last())
    }
}

/// `s` sorted by key; elements with equal keys keep their order.
pub open spec fn sort_by_key(s: Seq<u128>, keys: spec_fn(u128) -> (Seq<char>, Seq<char>)) -> Seq<
    u128,
>
    decreases s.len(),
{
    if s.len() == 0 {
        s
    } else {
        insert_by_key(sort_by_key(s.drop_last(), keys), s.last(), keys)
    }
}

/// The children of `id` in the order shown: binder order, or sorted.
pub open spec fn shown_children(tree: OutlineTree, id: u128, sort: OutlineSort) -> Seq<u128> {
    if sort == OutlineSort::Binder {
        node(tree, id).children@
    } else {
        sort_by_key(node(tree, id).children@, |c: u128| sort_key(tree, c, sort))
    }
}

fn lex_le_chars(a: &Vec<char>, b: &Vec<char>) -> (r: bool)
    ensures
        r == lex_le(a@, b@),
{
    let mut i: usize = 0;
    assert(a@.skip(0) =~= a@);
    assert(b@.skip(0) =~= b@);
    while i < a.len() && i < b.len() && a[i] == b[i]
        invariant
            i <= a@.len(),
            i <= b@.len(),
            lex_le(a@, b@) == lex_le(a@.skip(i as int), b@.skip(i as int)),
        decreases a.len() - i,
    {
        assert(a@.skip(i as int).drop_first() =~= a@.skip(i + 1));
        assert(b@.skip(i as int).drop_first() =~= b@.skip(i + 1));
        i = i + 1;
    }
    if i == a.len() {
        true
    } else if i == b.len() {
        false
    } else {
        a[i] <= b[i]
    }
}

fn key_le_chars(a: &(Vec<char>, Vec<char>), b: &(Vec<char>, Vec<char>)) -> (r: bool)
    ensures
        r == key_le((a.0@, a.1@), (b.0@, b.1@)),
{
    if crate::chars::chars_equal(&a.0, &b.0) {
        lex_le_chars(&a.1, &b.1)
    } else {
        lex_le_chars(&a.0, &b.0)
    }
}

fn node_key(tree: &OutlineTree, id: u128, sort: OutlineSort) -> (r: (Vec<char>, Vec<char>))
    requires
        has_node(*tree, id),
    ensures
        (r.0@, r.1@) == sort_key(*tree, id, sort),
{
    let n = match tree.nodes.get(&id) {
        Some(n) => n,
        None => return (Vec::new(), Vec::new()),
    };
    let title = match &n.metadata {
        Some(m) => chars_of(to_lowercase(m.title.as_str()).as_str()),
        None => Vec::new(),
    };
    match sort {
        OutlineSort::Binder => (Vec::new(), Vec::new()),
        OutlineSort::Title => (Vec::new(), title),
        OutlineSort::Status => {
            let status = match &n.metadata {
                Some(m) => match &m.status {
                    Some(status) => chars_of(to_lowercase(status.as_str()).as_str()),
                    None => Vec::new(),
                },
                None => Vec::new(),
            };
            (status, title)
        },
    }
}

fn sort_children(tree: &OutlineTree, children: &Vec<u128>, sort: OutlineSort) -> (r: Vec<u128>)
    requires
        forall|i: int| 0 <= i < children@.len() ==> has_node(*tree, #[trigger] children@[i]),
    ensures
        r@ == sort_by_key(children@, |c: u128| sort_key(*tree, c, sort)),
{
    let ghost keys = |c: u128| sort_key(*tree, c, sort);
    let mut r: Vec<u128> = Vec::new();
    let mut r_keys: Vec<(Vec<char>, Vec<char>)> = Vec::new();
    let mut i: usize = 0;
    while i < children.len()
        invariant
            i <= children@.len(),
            keys == (|c: u128| sort_key(*tree, c, sort)),
            forall|t: int| 0 <= t < children@.len() ==> has_node(*tree, #[trigger] children@[t]),
            r@ == sort_by_key(children@.take(i as int), keys),
            r_keys@.len() == r@.len(),
            forall|t: int| 0 <= t < r@.len() ==> (#[trigger] r_keys@[t].0@, r_keys@[t].1@) == keys(r@[t]),
        decreases children.len() - i,
    {
        let x = children[i];
        let kx = node_key(tree, x, sort);
        proof {
            assert(children@.take(i + 1).drop_last() =~= children@.take(i as int));
        }
        let mut j: usize = r.len();
        assert(r@.take(j as int) =~= r@);
        assert(r@.skip(j as int) =~= Seq::<u128>::empty());
        while j > 0 && !key_le_chars(&r_keys[j - 1], &kx)
            invariant
                j <= r@.len(),
                r_keys@.len() == r@.len(),
                (kx.0@, kx.1@) == keys(x),
                forall|t: int| 0 <= t < r@.len() ==> (#[trigger] r_keys@[t].0@, r_keys@[t].1@) == keys(r@[t]),
                insert_by_key(r@, x, keys) == insert_by_key(r@.take(j as int), x, keys) + r@.skip(
                    j as int,
                ),
            decreases j,
        {
            proof {
                assert(r@.take(j as int).drop_last() =~= r@.take(j - 1));
                assert(r@.take(j as int).last() == r@[j - 1]);
                assert(seq![r@[j - 1]] + r@.skip(j as int) =~= r@.skip(j - 1));
            }
            j = j - 1;
        }
        proof {
            if j > 0 {
                assert(r@.take(j as int).last() == r@[j - 1]);
            }
        }
        let ghost before = r@;
        r.insert(j, x);
        r_keys.insert(j, kx);
        proof {
            assert(r@ =~= before.take(j as int) + seq![x] + before.skip(j as int));
            if j == 0 {
                assert(before.take(0) =~= Seq::<u128>::empty());
            }
        }
        i = i + 1;
    }
    assert(children@.take(i as int) =~= children@);
    r
}

/// Below `id`, every node on a path of children is present, and no path
/// holds `fuel` nodes or more.
pub open spec fn bounded_below(tree: OutlineTree, id: u128, fuel: nat) -> bool
    decreases fuel,
{
    if fuel == 0 {
        false
    } else {
        &&& has_node(tree, id)
        &&& forall|i: int|
            0 <= i < node(tree, id).children@.len() ==> bounded_below(
                tree,
                #[trigger] node(tree, id).children@[i],
                (fuel - 1) as nat,
            )
    }
}

/// One more than the number of nodes: no path without a repeated node is
/// that long.
pub open spec fn path_bound(tree: OutlineTree) -> nat {
    tree.nodes@.dom().len() + 1
}

/// The nodes form a forest: every root and every child of a node is
/// present, and no path of children comes back to a node.
pub open spec fn is_forest(tree: OutlineTree) -> bool {
    &&& forall|i: int| 0 <= i < tree.roots@.len() ==> has_node(tree, #[trigger] tree.roots@[i])
    &&& forall|id: u128| has_node(tree, id) ==> #[trigger] bounded_below(tree, id, path_bound(tree))
}

proof fn lemma_children_present(tree: OutlineTree, id: u128, i: int)
    requires
        is_forest(tree),
        has_node(tree, id),
        0 <= i < node(tree, id).children@.len(),
    ensures
        has_node(tree, node(tree, id).children@[i]),
{
    assert(bounded_below(tree, id, path_bound(tree)));
    assert(bounded_below(tree, node(tree, id).children@[i], (path_bound(tree) - 1) as nat));
}

/// The nodes reached from `starts` in at most `k` steps to a child.
pub open spec fn reach_from(tree: OutlineTree, starts: Seq<u128>, k: nat) -> Set<u128>
    decreases k,
{
    if k == 0 {
        starts.to_set()
    } else {
        let r = reach_from(tree, starts, (k - 1) as nat);
        r.union(
            Set::new(
                |c: u128|
                    exists|p: u128|
                        #[trigger] r.contains(p) && has_node(tree, p) && node(
                            tree,
                            p,
                        ).children@.contains(c),
            ),
        )
    }
}

/// `id` is reached from `starts` through children.
pub open spec fn reachable_from(tree: OutlineTree, starts: Seq<u128>, id: u128) -> bool {
    exists|k: nat| #[trigger] reach_from(tree, starts, k).contains(id)
}

/// `id` is reached from the project's roots through children.
pub open spec fn reachable(tree: OutlineTree, id: u128) -> bool {
    reachable_from(tree, tree.roots@, id)
}

proof fn lemma_reach_child(tree: OutlineTree, starts: Seq<u128>, p: u128, i: int)
    requires
        reachable_from(tree, starts, p),
        has_node(tree, p),
        0 <= i < node(tree, p).children@.len(),
    ensures
        reachable_from(tree, starts, node(tree, p).children@[i]),
{
    let k = choose|k: nat| #[trigger] reach_from(tree, starts, k).contains(p);
    let c = node(tree, p).children@[i];
    assert(node(tree, p).children@.contains(c));
    assert(reach_from(tree, starts, k + 1).contains(c));
}

proof fn lemma_reach_within(tree: OutlineTree, starts: Seq<u128>, within: Set<u128>, k: nat)
    requires
        forall|i: int| 0 <= i < starts.len() ==> within.contains(#[trigger] starts[i]),
        forall|p: u128, i: int|
            within.contains(p) && has_node(tree, p) && 0 <= i < node(tree, p).children@.len()
                ==> within.contains(#[trigger] node(tree, p).children@[i]),
    ensures
        reach_from(tree, starts, k).subset_of(within),
    decreases k,
{
    if k == 0 {
        assert forall|x: u128| reach_from(tree, starts, 0).contains(x) implies within.contains(x) by {
            let i = starts.index_of(x);
        }
    } else {
        lemma_reach_within(tree, starts, within, (k - 1) as nat);
        assert forall|x: u128| reach_from(tree, starts, k).contains(x) implies within.contains(x) by {
            let r = reach_from(tree, starts, (k - 1) as nat);
            if !r.contains(x) {
                let p = choose|p: u128|
                    #[trigger] r.contains(p) && has_node(tree, p) && node(tree, p).children@.contains(x);
                let i = node(tree, p).children@.index_of(x);
                assert(within.contains(node(tree, p).children@[i]));
            }
        }
    }
}

proof fn lemma_reach_present(tree: OutlineTree, k: nat)
    requires
        is_forest(tree),
    ensures
        forall|x: u128| reach_from(tree, tree.roots@, k).contains(x) ==> has_node(tree, x),
    decreases k,
{
    if k == 0 {
        assert forall|x: u128| reach_from(tree, tree.roots@, 0).contains(x) implies has_node(tree, x) by {
            let i = tree.roots@.index_of(x);
        }
    } else {
        lemma_reach_present(tree, (k - 1) as nat);
        assert forall|x: u128| reach_from(tree, tree.roots@, k).contains(x) implies has_node(tree, x) by {
            let r = reach_from(tree, tree.roots@, (k - 1) as nat);
            if !r.contains(x) {
                let p = choose|p: u128|
                    #[trigger] r.contains(p) && has_node(tree, p) && node(tree, p).children@.contains(x);
                let i = node(tree, p).children@.index_of(x);
                lemma_children_present(tree, p, i);
            }
        }
    }
}

/// The nodes reached from `starts` through children, each once; nodes
/// that are not in the tree are reached but lead nowhere.
pub fn reachable_nodes(tree: &OutlineTree, starts: &Vec<u128>) -> (order: Vec<u128>)
    ensures
        forall|x: u128| order@.contains(x) <==> reachable_from(*tree, starts@, x),
{
    let ghost dom = tree.nodes@.dom();
    let mut active: BTreeSet<u128> = BTreeSet::new();
    let mut order: Vec<u128> = Vec::new();
    let mut pending: Vec<u128> = Vec::new();
    let mut r: usize = 0;
    while r < starts.len()
        invariant
            r <= starts@.len(),
            pending@ == starts@.take(r as int),
        decreases starts.len() - r,
    {
        pending.push(starts[r]);
        r = r + 1;
        assert(pending@ =~= starts@.take(r as int));
    }
    assert(pending@ =~= starts@);
    proof {
        assert forall|i: int| 0 <= i < pending@.len() implies reachable_from(
            *tree,
            starts@,
            #[trigger] pending@[i],
        ) by {
            assert(reach_from(*tree, starts@, 0).contains(starts@[i]));
        }
    }
    while pending.len() > 0
        invariant
            dom == tree.nodes@.dom(),
            dom.finite(),
            forall|x: u128| active@.contains(x) <==> order@.contains(x),
            forall|x: u128| active@.contains(x) ==> reachable_from(*tree, starts@, x),
            forall|i: int| 0 <= i < pending@.len() ==> reachable_from(*tree, starts@, #[trigger] pending@[i]),
            forall|i: int|
                0 <= i < starts@.len() ==> active@.contains(#[trigger] starts@[i]) || pending@.contains(
                    starts@[i],
                ),
            forall|p: u128, i: int|
                active@.contains(p) && has_node(*tree, p) && 0 <= i < node(*tree, p).children@.len()
                    ==> active@.contains(#[trigger] node(*tree, p).children@[i]) || pending@.contains(
                    node(*tree, p).children@[i],
                ),
        decreases dom.difference(active@).len(), pending.len(),
    {
        let ghost pend0 = pending@;
        let x = pending.pop().unwrap();
        proof {
            assert forall|y: u128| pend0.contains(y) implies y == x || pending@.contains(y) by {
                let k = pend0.index_of(y);
                if k < pend0.len() - 1 {
                    assert(pending@[k] == y);
                }
            }
        }
        let ghost before = active@;
        let ghost order0 = order@;
        if active.insert(x) {
            order.push(x);
            proof {
                assert forall|y: u128| active@.contains(y) <==> order@.contains(y) by {
                    if y == x {
                        assert(order@[order@.len() - 1] == x);
                    } else if order0.contains(y) {
                        let k = order0.index_of(y);
                        assert(order@[k] == y);
                    } else if order@.contains(y) {
                        let k = order@.index_of(y);
                        assert(k < order0.len());
                        assert(order0[k] == y);
                    }
                }
            }
            let ghost mid = pending@;
            if let Some(n) = tree.nodes.get(&x) {
                proof {
                    assert(dom.difference(active@) =~= dom.difference(before).remove(x));
                    assert(dom.difference(before).finite());
                    assert(dom.difference(before).contains(x));
                    assert(dom.difference(active@).len() < dom.difference(before).len());
                }
                let mut c: usize = 0;
                while c < n.children.len()
                    invariant
                        has_node(*tree, x),
                        reachable_from(*tree, starts@, x),
                        *n == node(*tree, x),
                        c <= n.children@.len(),
                        forall|i: int|
                            0 <= i < pending@.len() ==> reachable_from(*tree, starts@, #[trigger] pending@[i]),
                        forall|i: int| 0 <= i < c ==> pending@.contains(#[trigger] n.children@[i]),
                        mid.len() <= pending@.len(),
                        forall|i: int| 0 <= i < mid.len() ==> #[trigger] pending@[i] == mid[i],
                    decreases n.children.len() - c,
                {
                    let ghost old_pending = pending@;
                    proof {
                        lemma_reach_child(*tree, starts@, x, c as int);
                    }
                    pending.push(n.children[c]);
                    proof {
                        assert forall|i: int| 0 <= i < c + 1 implies pending@.contains(#[trigger] n.children@[i]) by {
                            if i < c {
                                let k = old_pending.index_of(n.children@[i]);
                                assert(pending@[k] == n.children@[i]);
                            } else {
                                assert(pending@[pending@.len() - 1] == n.children@[i]);
                            }
                        }
                    }
                    c = c + 1;
                }
            } else {
                assert(dom.difference(active@) =~= dom.difference(before));
            }
            proof {
                assert forall|y: u128| mid.contains(y) implies pending@.contains(y) by {
                    let k = mid.index_of(y);
                    assert(pending@[k] == y);
                }
            }
        } else {
            assert(active@ =~= before);
        }
    }
    proof {
        assert forall|x: u128| reachable_from(*tree, starts@, x) implies order@.contains(x) by {
            let k = choose|k: nat| #[trigger] reach_from(*tree, starts@, k).contains(x);
            lemma_reach_within(*tree, starts@, active@, k);
        }
    }
    order
}

/// `node` and every node below it, each once.
pub fn subtree_nodes(tree: &OutlineTree, node: u128) -> (nodes: Vec<u128>)
    ensures
        forall|x: u128| nodes@.contains(x) <==> reachable_from(*tree, seq![node], x),
{
    let starts = vec![node];
    assert(starts@ =~= seq![node]);
    reachable_nodes(tree, &starts)
}

/// The node `k` steps up the parents from `id`.
pub open spec fn ancestor(tree: OutlineTree, id: u128, k: nat) -> Option<u128>
    decreases k,
{
    if k == 0 {
        Some(id)
    } else {
        match ancestor(tree, id, (k - 1) as nat) {
            Some(a) => if has_node(tree, a) {
                node(tree, a).parent
            } else {
                None
            },
            None => None,
        }
    }
}

/// `x` is kept by the filter `query`: it is a reached node that matches,
/// or an ancestor of one.
pub open spec fn kept_by_filter(tree: OutlineTree, query: Seq<char>, x: u128) -> bool {
    exists|m: u128, k: nat|
        reachable(tree, m) && matches_query(tree, m, query) && #[trigger] ancestor(tree, m, k)
            == Some(x)
}

/// Every parent of a present node in `set` is in `set`.
pub open spec fn parent_closed(tree: OutlineTree, set: Set<u128>) -> bool {
    forall|x: u128|
        #![trigger set.contains(x)]
        set.contains(x) && has_node(tree, x) && node(tree, x).parent is Some ==> set.contains(
            node(tree, x).parent->0,
        )
}

proof fn lemma_ancestors_within(tree: OutlineTree, set: Set<u128>, m: u128, k: nat)
    requires
        parent_closed(tree, set),
        set.contains(m),
    ensures
        ancestor(tree, m, k) matches Some(a) ==> set.contains(a),
    decreases k,
{
    if k > 0 {
        lemma_ancestors_within(tree, set, m, (k - 1) as nat);
    }
}

fn matching_nodes(tree: &OutlineTree, active: &Vec<u128>, query: &Vec<char>) -> (kept: BTreeSet<
    u128,
>)
    requires
        is_forest(*tree),
        forall|x: u128| active@.contains(x) <==> reachable(*tree, x),
    ensures
        forall|x: u128| kept@.contains(x) <==> kept_by_filter(*tree, query@, x),
{
    let ghost dom = tree.nodes@.dom();
    let mut kept: BTreeSet<u128> = BTreeSet::new();
    let mut i: usize = 0;
    while i < active.len()
        invariant
            is_forest(*tree),
            dom == tree.nodes@.dom(),
            dom.finite(),
            i <= active@.len(),
            forall|x: u128| active@.contains(x) <==> reachable(*tree, x),
            forall|x: u128| kept@.contains(x) ==> kept_by_filter(*tree, query@, x),
            parent_closed(*tree, kept@),
            forall|j: int|
                0 <= j < i && matches_query(*tree, active@[j], query@) ==> kept@.contains(
                    #[trigger] active@[j],
                ),
        decreases active.len() - i,
    {
        let m = active[i];
        proof {
            assert(active@.contains(m));
            lemma_reach_present_one(*tree, m);
        }
        let n = match tree.nodes.get(&m) {
            Some(n) => n,
            None => {
                i = i + 1;
                continue;
            },
        };
        if matches_row(n, query) {
            let ghost kept0 = kept@;
            let mut current: Option<u128> = Some(m);
            let ghost mut steps: nat = 0;
            loop
                invariant
                    dom == tree.nodes@.dom(),
                    dom.finite(),
                    reachable(*tree, m),
                    matches_query(*tree, m, query@),
                    current == ancestor(*tree, m, steps),
                    forall|x: u128| kept@.contains(x) ==> kept_by_filter(*tree, query@, x),
                    forall|x: u128|
                        #![trigger kept@.contains(x)]
                        kept@.contains(x) && has_node(*tree, x) && node(*tree, x).parent is Some
                            ==> kept@.contains(node(*tree, x).parent->0) || current == node(
                            *tree,
                            x,
                        ).parent,
                    kept@.contains(m) || current == Some(m),
                    forall|x: u128| kept0.contains(x) ==> kept@.contains(x),
                ensures
                    parent_closed(*tree, kept@),
                    kept@.contains(m),
                    forall|x: u128| kept@.contains(x) ==> kept_by_filter(*tree, query@, x),
                    forall|x: u128| kept0.contains(x) ==> kept@.contains(x),
                decreases dom.difference(kept@).len() + if current is Some {
                    1nat
                } else {
                    0nat
                },
            {
                let v = match current {
                    Some(v) => v,
                    None => break,
                };
                let ghost before = kept@;
                if !kept.insert(v) {
                    break;
                }
                proof {
                    assert(kept_by_filter(*tree, query@, v));
                    assert(dom.difference(kept@) =~= dom.difference(before).remove(v));
                    if !dom.contains(v) {
                        assert(dom.difference(kept@) =~= dom.difference(before));
                    }
                }
                current = match tree.nodes.get(&v) {
                    Some(entry) => entry.parent,
                    None => None,
                };
                proof {
                    steps = steps + 1;
                }
            }
        }
        i = i + 1;
    }
    proof {
        assert forall|x: u128| kept_by_filter(*tree, query@, x) implies kept@.contains(x) by {
            let (m, k) = choose|m: u128, k: nat|
                reachable(*tree, m) && matches_query(*tree, m, query@) && #[trigger] ancestor(*tree, m, k)
                    == Some(x);
            let j = active@.index_of(m);
            assert(kept@.contains(active@[j]));
            lemma_ancestors_within(*tree, kept@, m, k);
        }
    }
    kept
}

proof fn lemma_reach_present_one(tree: OutlineTree, x: u128)
    requires
        is_forest(tree),
        reachable(tree, x),
    ensures
        has_node(tree, x),
{
    let k = choose|k: nat| #[trigger] reach_from(tree, tree.roots@, k).contains(x);
    lemma_reach_present(tree, k);
}

proof fn lemma_insert_elements(sorted: Seq<u128>, x: u128, keys: spec_fn(u128) -> (Seq<char>, Seq<char>))
    ensures
        insert_by_key(sorted, x, keys).len() == sorted.len() + 1,
        forall|i: int|
            0 <= i < insert_by_key(sorted, x, keys).len() ==> #[trigger] insert_by_key(
                sorted,
                x,
                keys,
            )[i] == x || sorted.contains(insert_by_key(sorted, x, keys)[i]),
    decreases sorted.len(),
{
    if sorted.len() > 0 && !key_le(keys(sorted.last()), keys(x)) {
        let front = sorted.drop_last();
        lemma_insert_elements(front, x, keys);
        let r = insert_by_key(sorted, x, keys);
        assert forall|i: int| 0 <= i < r.len() implies #[trigger] r[i] == x || sorted.contains(r[i]) by {
            if i < r.len() - 1 {
                let inner = insert_by_key(front, x, keys);
                assert(r[i] == inner[i]);
                if inner[i] != x {
                    let k = front.index_of(inner[i]);
                    assert(sorted[k] == front[k]);
                }
            } else {
                assert(sorted[sorted.len() - 1] == r[i]);
            }
        }
    } else if sorted.len() > 0 {
        let r = insert_by_key(sorted, x, keys);
        assert forall|i: int| 0 <= i < r.len() implies #[trigger] r[i] == x || sorted.contains(r[i]) by {
            if i < sorted.len() {
                assert(sorted[i] == r[i]);
            }
        }
    }
}

/// Sorting keeps the elements: every sorted element is one of `s`.
proof fn lemma_sorted_elements(s: Seq<u128>, keys: spec_fn(u128) -> (Seq<char>, Seq<char>))
    ensures
        sort_by_key(s, keys).len() == s.len(),
        forall|i: int|
            0 <= i < sort_by_key(s, keys).len() ==> s.contains(#[trigger] sort_by_key(s, keys)[i]),
    decreases s.len(),
{
    if s.len() > 0 {
        let front = s.drop_last();
        lemma_sorted_elements(front, keys);
        let inner = sort_by_key(front, keys);
        lemma_insert_elements(inner, s.last(), keys);
        let r = sort_by_key(s, keys);
        assert forall|i: int| 0 <= i < r.len() implies s.contains(#[trigger] r[i]) by {
            if r[i] == s.last() {
                assert(s[s.len() - 1] == r[i]);
            } else {
                let k = inner.index_of(r[i]);
                let t = front.index_of(inner[k]);
                assert(s[t] == front[t]);
            }
        }
    }
}

proof fn lemma_lex_le_total(a: Seq<char>, b: Seq<char>)
    ensures
        lex_le(a, b) || lex_le(b, a),
        lex_le(a, b) && lex_le(b, a) ==> a == b,
    decreases a.len(),
{
    if a.len() > 0 && b.len() > 0 && a[0] == b[0] {
        lemma_lex_le_total(a.drop_first(), b.drop_first());
        if lex_le(a, b) && lex_le(b, a) {
            assert(a =~= seq![a[0]] + a.drop_first());
            assert(b =~= seq![b[0]] + b.drop_first());
        }
    }
}

proof fn lemma_lex_le_transitive(a: Seq<char>, b: Seq<char>, c: Seq<char>)
    requires
        lex_le(a, b),
        lex_le(b, c),
    ensures
        lex_le(a, c),
    decreases a.len(),
{
    if a.len() > 0 && b.len() > 0 && c.len() > 0 && a[0] == b[0] && b[0] == c[0] {
        lemma_lex_le_transitive(a.drop_first(), b.drop_first(), c.drop_first());
    }
}

proof fn lemma_key_le_order(
    a: (Seq<char>, Seq<char>),
    b: (Seq<char>, Seq<char>),
    c: (Seq<char>, Seq<char>),
)
    ensures
        key_le(a, b) || key_le(b, a),
        key_le(a, b) && key_le(b, c) ==> key_le(a, c),
{
    lemma_lex_le_total(a.0, b.0);
    lemma_lex_le_total(a.1, b.1);
    lemma_lex_le_total(b.0, c.0);
    lemma_lex_le_total(a.0, c.0);
    if key_le(a, b) && key_le(b, c) {
        if a.0 == b.0 && b.0 == c.0 {
            lemma_lex_le_transitive(a.1, b.1, c.1);
        } else if a.0 != b.0 && b.0 != c.0 {
            lemma_lex_le_transitive(a.0, b.0, c.0);
        }
    }
}

/// `s` is in key order.
pub open spec fn in_key_order(s: Seq<u128>, keys: spec_fn(u128) -> (Seq<char>, Seq<char>)) -> bool {
    forall|i: int, j: int| 0 <= i < j < s.len() ==> key_le(keys(#[trigger] s[i]), keys(#[trigger] s[j]))
}

proof fn lemma_insert_keeps_order(sorted: Seq<u128>, x: u128, keys: spec_fn(u128) -> (Seq<char>, Seq<char>))
    requires
        in_key_order(sorted, keys),
    ensures
        in_key_order(insert_by_key(sorted, x, keys), keys),
        sorted.len() > 0 && !key_le(keys(sorted.last()), keys(x)) ==> insert_by_key(
            sorted,
            x,
            keys,
        ).last() == sorted.last(),
    decreases sorted.len(),
{
    let r = insert_by_key(sorted, x, keys);
    if sorted.len() == 0 {
    } else if key_le(keys(sorted.last()), keys(x)) {
        assert forall|i: int, j: int| 0 <= i < j < r.len() implies key_le(
            keys(#[trigger] r[i]),
            keys(#[trigger] r[j]),
        ) by {
            if j == r.len() - 1 {
                if i < sorted.len() - 1 {
                    lemma_key_le_order(keys(sorted[i]), keys(sorted.last()), keys(x));
                }
            } else {
                assert(r[i] == sorted[i] && r[j] == sorted[j]);
            }
        }
    } else {
        let front = sorted.drop_last();
        assert(in_key_order(front, keys));
        lemma_insert_keeps_order(front, x, keys);
        lemma_insert_elements(front, x, keys);
        let inner = insert_by_key(front, x, keys);
        lemma_key_le_order(keys(sorted.last()), keys(x), keys(x));
        assert forall|i: int, j: int| 0 <= i < j < r.len() implies key_le(
            keys(#[trigger] r[i]),
            keys(#[trigger] r[j]),
        ) by {
            if j == r.len() - 1 {
                assert(r[j] == sorted.last());
                assert(r[i] == inner[i]);
                if inner[i] == x {
                } else {
                    let k = front.index_of(inner[i]);
                    assert(sorted[k] == front[k]);
                }
            } else {
                assert(r[i] == inner[i] && r[j] == inner[j]);
            }
        }
    }
}

proof fn lemma_sorted_in_key_order(s: Seq<u128>, keys: spec_fn(u128) -> (Seq<char>, Seq<char>))
    ensures
        in_key_order(sort_by_key(s, keys), keys),
    decreases s.len(),
{
    if s.len() > 0 {
        lemma_sorted_in_key_order(s.drop_last(), keys);
        lemma_insert_keeps_order(sort_by_key(s.drop_last(), keys), s.last(), keys);
    }
}

/// The depth below `depth`, saturating.
pub open spec fn next_depth(depth: u16) -> u16 {
    if depth == u16::MAX {
        depth
    } else {
        (depth + 1) as u16
    }
}

/// The nodes shown for `id` and its descendants, each with its depth, in
/// display order: nothing when the filter is on and drops `id`; else `id`
/// followed by what is shown for its children in their shown order.
pub open spec fn visit(
    tree: OutlineTree,
    id: u128,
    depth: u16,
    filtering: bool,
    kept: Set<u128>,
    sort: OutlineSort,
    fuel: nat,
) -> Seq<(u128, u16)>
    decreases fuel, 0nat,
{
    if fuel == 0 {
        Seq::empty()
    } else if filtering && !kept.contains(id) {
        Seq::empty()
    } else {
        seq![(id, depth)] + visit_list(
            tree,
            shown_children(tree, id, sort),
            next_depth(depth),
            filtering,
            kept,
            sort,
            (fuel - 1) as nat,
        )
    }
}

/// What is shown for each of `ids` in turn.
pub open spec fn visit_list(
    tree: OutlineTree,
    ids: Seq<u128>,
    depth: u16,
    filtering: bool,
    kept: Set<u128>,
    sort: OutlineSort,
    fuel: nat,
) -> Seq<(u128, u16)>
    decreases fuel, ids.len() + 1,
{
    if ids.len() == 0 {
        Seq::empty()
    } else {
        visit(tree, ids[0], depth, filtering, kept, sort, fuel) + visit_list(
            tree,
            ids.drop_first(),
            depth,
            filtering,
            kept,
            sort,
            fuel,
        )
    }
}

proof fn lemma_visit_list_snoc(
    tree: OutlineTree,
    ids: Seq<u128>,
    r: int,
    depth: u16,
    filtering: bool,
    kept: Set<u128>,
    sort: OutlineSort,
    fuel: nat,
)
    requires
        0 <= r < ids.len(),
    ensures
        visit_list(tree, ids.take(r + 1), depth, filtering, kept, sort, fuel) == visit_list(
            tree,
            ids.take(r),
            depth,
            filtering,
            kept,
            sort,
            fuel,
        ) + visit(tree, ids[r], depth, filtering, kept, sort, fuel),
    decreases r,
{
    if r == 0 {
        assert(ids.take(1).drop_first() =~= Seq::<u128>::empty());
        assert(ids.take(0) =~= Seq::<u128>::empty());
    } else {
        let tail = ids.drop_first();
        lemma_visit_list_snoc(tree, tail, r - 1, depth, filtering, kept, sort, fuel);
        assert(ids.take(r + 1).drop_first() =~= tail.take(r));
        assert(ids.take(r).drop_first() =~= tail.take(r - 1));
        assert(ids.take(r + 1)[0] == ids[0]);
        assert(ids.take(r)[0] == ids[0]);
        assert(tail[r - 1] == ids[r]);
    }
}

/// What is still to be shown for a stack of pending nodes, top first.
pub open spec fn pending_rows(
    tree: OutlineTree,
    stack: Seq<(u128, u16)>,
    fuels: Seq<nat>,
    filtering: bool,
    kept: Set<u128>,
    sort: OutlineSort,
) -> Seq<(u128, u16)>
    decreases stack.len(),
{
    if stack.len() == 0 {
        Seq::empty()
    } else {
        visit(tree, stack.last().0, stack.last().1, filtering, kept, sort, fuels.last()) + pending_rows(
            tree,
            stack.drop_last(),
            fuels.drop_last(),
            filtering,
            kept,
            sort,
        )
    }
}

/// `rows` show the nodes of `order` at their depths, with no word counts.
pub open spec fn shows_all(rows: Seq<BinderRow>, tree: OutlineTree, order: Seq<(u128, u16)>) -> bool {
    &&& rows.len() == order.len()
    &&& forall|i: int|
        0 <= i < rows.len() ==> shows_node(#[trigger] rows[i], tree, order[i].0, order[i].1, 0)
}

fn traverse(
    tree: &OutlineTree,
    roots: &Vec<u128>,
    filtering: bool,
    kept: &BTreeSet<u128>,
    sort: OutlineSort,
) -> (rows: Vec<BinderRow>)
    requires
        is_forest(*tree),
        forall|i: int| 0 <= i < roots@.len() ==> has_node(*tree, #[trigger] roots@[i]),
    ensures
        shows_all(
            rows@,
            *tree,
            visit_list(*tree, roots@, 0, filtering, kept@, sort, path_bound(*tree)),
        ),
{
    let ghost fuel = path_bound(*tree);
    let ghost keys = |c: u128| sort_key(*tree, c, sort);
    let mut rows: Vec<BinderRow> = Vec::new();
    let ghost mut emitted: Seq<(u128, u16)> = Seq::empty();
    let mut r: usize = 0;
    assert(roots@.take(0) =~= Seq::<u128>::empty());
    while r < roots.len()
        invariant
            is_forest(*tree),
            fuel == path_bound(*tree),
            keys == (|c: u128| sort_key(*tree, c, sort)),
            r <= roots@.len(),
            forall|i: int| 0 <= i < roots@.len() ==> has_node(*tree, #[trigger] roots@[i]),
            emitted == visit_list(*tree, roots@.take(r as int), 0, filtering, kept@, sort, fuel),
            shows_all(rows@, *tree, emitted),
        decreases roots.len() - r,
    {
        let root = roots[r];
        let ghost start = emitted;
        let mut pending: Vec<(u128, u16)> = Vec::new();
        pending.push((root, 0));
        let ghost mut fuels: Seq<nat> = seq![fuel];
        proof {
            assert(bounded_below(*tree, root, fuel));
            assert(pending_rows(*tree, Seq::empty(), Seq::empty(), filtering, kept@, sort) =~= Seq::<
                (u128, u16),
            >::empty());
            assert(pending@.drop_last() =~= Seq::<(u128, u16)>::empty());
            assert(fuels.drop_last() =~= Seq::<nat>::empty());
            assert(pending_rows(*tree, pending@, fuels, filtering, kept@, sort) =~= visit(
                *tree,
                root,
                0,
                filtering,
                kept@,
                sort,
                fuel,
            ));
        }
        while pending.len() > 0
            invariant
                is_forest(*tree),
                fuel == path_bound(*tree),
                keys == (|c: u128| sort_key(*tree, c, sort)),
                fuels.len() == pending@.len(),
                forall|i: int|
                    0 <= i < pending@.len() ==> bounded_below(*tree, (#[trigger] pending@[i]).0, fuels[i]),
                emitted + pending_rows(*tree, pending@, fuels, filtering, kept@, sort) == start
                    + visit(*tree, root, 0, filtering, kept@, sort, fuel),
                shows_all(rows@, *tree, emitted),
            decreases pending_rows(*tree, pending@, fuels, filtering, kept@, sort).len(), pending.len(),
        {
            let ghost stack0 = pending@;
            let ghost fuels0 = fuels;
            let (id, depth) = pending.pop().unwrap();
            let ghost f = fuels0.last();
            proof {
                fuels = fuels0.drop_last();
                assert(bounded_below(*tree, stack0[stack0.len() - 1].0, fuels0[fuels0.len() - 1]));
                assert(pending@ =~= stack0.drop_last());
            }
            if filtering && !kept.contains(&id) {
                proof {
                    assert(visit(*tree, id, depth, filtering, kept@, sort, f) =~= Seq::<(u128, u16)>::empty());
                    assert(emitted + pending_rows(*tree, pending@, fuels, filtering, kept@, sort) =~= emitted
                        + pending_rows(*tree, stack0, fuels0, filtering, kept@, sort));
                }
            } else {
                let (row, n) = match (binder_row(tree, id, depth, 0), tree.nodes.get(&id)) {
                    (Some(row), Some(n)) => (row, n),
                    _ => {
                        return vstd::pervasive::unreached();
                    },
                };
                rows.push(row);
                proof {
                    emitted = emitted.push((id, depth));
                }
                let children = if let OutlineSort::Binder = sort {
                    n.children.clone()
                } else {
                    proof {
                        assert forall|i: int| 0 <= i < n.children@.len() implies has_node(
                            *tree,
                            #[trigger] n.children@[i],
                        ) by {
                            lemma_children_present(*tree, id, i);
                        }
                    }
                    sort_children(tree, &n.children, sort)
                };
                proof {
                    assert(children@ == shown_children(*tree, id, sort));
                    lemma_sorted_elements(node(*tree, id).children@, keys);
                }
                let child_depth = depth.saturating_add(1);
                let ghost mid = pending@;
                let ghost mid_fuels = fuels;
                let mut j: usize = children.len();
                assert(children@.skip(j as int) =~= Seq::<u128>::empty());
                while j > 0
                    invariant
                        is_forest(*tree),
                        j <= children@.len(),
                        f > 0,
                        bounded_below(*tree, id, f),
                        has_node(*tree, id),
                        children@ == shown_children(*tree, id, sort),
                        forall|i: int|
                            0 <= i < children@.len() ==> node(*tree, id).children@.contains(
                                #[trigger] children@[i],
                            ),
                        child_depth == next_depth(depth),
                        fuels.len() == pending@.len(),
                        forall|i: int|
                            0 <= i < pending@.len() ==> bounded_below(
                                *tree,
                                (#[trigger] pending@[i]).0,
                                fuels[i],
                            ),
                        pending_rows(*tree, pending@, fuels, filtering, kept@, sort) == visit_list(
                            *tree,
                            children@.skip(j as int),
                            child_depth,
                            filtering,
                            kept@,
                            sort,
                            (f - 1) as nat,
                        ) + pending_rows(*tree, mid, mid_fuels, filtering, kept@, sort),
                    decreases j,
                {
                    let ghost stack1 = pending@;
                    let ghost fuels1 = fuels;
                    let child = children[j - 1];
                    pending.push((child, child_depth));
                    proof {
                        fuels = fuels1.push((f - 1) as nat);
                        let k = node(*tree, id).children@.index_of(child);
                        assert(bounded_below(*tree, node(*tree, id).children@[k], (f - 1) as nat));
                        assert(pending@.drop_last() =~= stack1);
                        assert(fuels.drop_last() =~= fuels1);
                        assert(children@.skip(j - 1).drop_first() =~= children@.skip(j as int));
                        assert(children@.skip(j - 1)[0] == child);
                    }
                    j = j - 1;
                }
                proof {
                    assert(children@.skip(0) =~= children@);
                }
            }
        }
        proof {
            assert(pending_rows(*tree, pending@, fuels, filtering, kept@, sort) =~= Seq::<(u128, u16)>::empty());
            lemma_visit_list_snoc(*tree, roots@, r as int, 0, filtering, kept@, sort, fuel);
        }
        r = r + 1;
    }
    assert(roots@.take(r as int) =~= roots@);
    rows
}

/// The nodes the projection starts from: the focused node when it is
/// present and not in the trash, else the project's roots.
pub open spec fn display_roots(tree: OutlineTree, focus: Option<u128>) -> Seq<u128> {
    match focus {
        Some(f) => if has_node(tree, f) && !node(tree, f).trashed {
            seq![f]
        } else {
            tree.roots@
        },
        None => tree.roots@,
    }
}

/// The filter as it is matched: trimmed and lowercased.
pub open spec fn filter_query(filter: Seq<char>) -> Seq<char> {
    lowercase(trim_whitespace_spec(filter))
}

/// The nodes the projection shows, with their depths, in display order:
/// from each display root, every node and its descendants in the chosen
/// order; with a non-empty filter, only the reached nodes that match it and
/// their ancestors.
pub open spec fn snapshot_order(
    tree: OutlineTree,
    focus: Option<u128>,
    filter: Seq<char>,
    sort: OutlineSort,
) -> Seq<(u128, u16)> {
    let query = filter_query(filter);
    let kept = if query.len() > 0 {
        Set::new(|x: u128| kept_by_filter(tree, query, x))
    } else {
        Set::empty()
    };
    visit_list(tree, display_roots(tree, focus), 0, query.len() > 0, kept, sort, path_bound(tree))
}

/// The outline projection of `tree`: rows for the focused subtree (or the
/// whole project), in binder order or sorted by title or status, narrowed
/// by `filter` to matching nodes and their ancestors.
pub fn build_snapshot(tree: &OutlineTree, focus: Option<u128>, filter: &str, sort: OutlineSort) -> (s:
    BinderSnapshot)
    requires
        is_forest(*tree),
    ensures
        s.wf(),
        shows_all(s.rows_view(), *tree, snapshot_order(*tree, focus, filter@, sort)),
{
    let trimmed = trim_whitespace(&chars_of(filter));
    let lowered = to_lowercase(string_from_chars(&trimmed).as_str());
    let query = chars_of(lowered.as_str());
    let mut roots: Vec<u128> = Vec::new();
    let focused = match focus {
        Some(f) => match tree.nodes.get(&f) {
            Some(n) => if !n.trashed {
                roots.push(f);
                true
            } else {
                false
            },
            None => false,
        },
        None => false,
    };
    if !focused {
        let mut i: usize = 0;
        while i < tree.roots.len()
            invariant
                i <= tree.roots@.len(),
                roots@ == tree.roots@.take(i as int),
            decreases tree.roots.len() - i,
        {
            roots.push(tree.roots[i]);
            i = i + 1;
            assert(roots@ =~= tree.roots@.take(i as int));
        }
        assert(roots@ =~= tree.roots@);
    } else {
        assert(roots@ =~= seq![focus->0]);
    }
    let filtering = query.len() > 0;
    let kept = if filtering {
        let active = reachable_nodes(tree, &tree.roots);
        let kept = matching_nodes(tree, &active, &query);
        assert(kept@ =~= Set::new(|x: u128| kept_by_filter(*tree, query@, x)));
        kept
    } else {
        let kept: BTreeSet<u128> = BTreeSet::new();
        kept
    };
    let rows = traverse(tree, &roots, filtering, &kept, sort);
    BinderSnapshot::from_rows(rows)
}

/// In the title and status views each node's children are shown in key
/// order (case-insensitive title, or status then title), and they are the
/// node's children: as many, and each one of them.
pub proof fn lemma_shown_children_sorted(tree: OutlineTree, id: u128, sort: OutlineSort)
    requires
        sort != OutlineSort::Binder,
    ensures
        in_key_order(shown_children(tree, id, sort), |c: u128| sort_key(tree, c, sort)),
        shown_children(tree, id, sort).len() == node(tree, id).children@.len(),
        forall|i: int|
            0 <= i < shown_children(tree, id, sort).len() ==> node(tree, id).children@.contains(
                #[trigger] shown_children(tree, id, sort)[i],
            ),
{
    let keys = |c: u128| sort_key(tree, c, sort);
    lemma_sorted_in_key_order(node(tree, id).children@, keys);
    lemma_sorted_elements(node(tree, id).children@, keys);
}

/// The lowercase status of a node's document, empty without one.
pub open spec fn lowercase_status(tree: OutlineTree, id: u128) -> Seq<char> {
    match node(tree, id).metadata {
        Some(m) => match m.status {
            Some(status) => lowercase(status@),
            None => Seq::empty(),
        },
        None => Seq::empty(),
    }
}

/// The lowercase title of a node's document, empty without one.
pub open spec fn lowercase_title(tree: OutlineTree, id: u128) -> Seq<char> {
    match node(tree, id).metadata {
        Some(m) => lowercase(m.title@),
        None => Seq::empty(),
    }
}

/// In the status view, siblings come in order of their lowercase status,
/// and siblings with the same lowercase status in order of their lowercase
/// title.
pub proof fn lemma_status_order_ties_by_title(tree: OutlineTree, id: u128, i: int, j: int)
    requires
        0 <= i < j < shown_children(tree, id, OutlineSort::Status).len(),
    ensures
        ({
            let shown = shown_children(tree, id, OutlineSort::Status);
            &&& lowercase_status(tree, shown[i]) != lowercase_status(tree, shown[j]) ==> lex_le(
                lowercase_status(tree, shown[i]),
                lowercase_status(tree, shown[j]),
            )
            &&& lowercase_status(tree, shown[i]) == lowercase_status(tree, shown[j]) ==> lex_le(
                lowercase_title(tree, shown[i]),
                lowercase_title(tree, shown[j]),
            )
        }),
{
    let shown = shown_children(tree, id, OutlineSort::Status);
    lemma_shown_children_sorted(tree, id, OutlineSort::Status);
    let keys = |c: u128| sort_key(tree, c, OutlineSort::Status);
    assert(key_le(keys(shown[i]), keys(shown[j])));
}

/// In the title view, siblings come in order of their lowercase title.
pub proof fn lemma_title_order(tree: OutlineTree, id: u128, i: int, j: int)
    requires
        0 <= i < j < shown_children(tree, id, OutlineSort::Title).len(),
    ensures
        lex_le(
            lowercase_title(tree, shown_children(tree, id, OutlineSort::Title)[i]),
            lowercase_title(tree, shown_children(tree, id, OutlineSort::Title)[j]),
        ),
{
    let shown = shown_children(tree, id, OutlineSort::Title);
    lemma_shown_children_sorted(tree, id, OutlineSort::Title);
    let keys = |c: u128| sort_key(tree, c, OutlineSort::Title);
    assert(key_le(keys(shown[i]), keys(shown[j])));
}

proof fn lemma_visit_depths(
    tree: OutlineTree,
    id: u128,
    depth: u16,
    filtering: bool,
    kept: Set<u128>,
    sort: OutlineSort,
    fuel: nat,
)
    ensures
        ({
            let v = visit(tree, id, depth, filtering, kept, sort, fuel);
            &&& v.len() > 0 ==> v[0] == (id, depth)
            &&& forall|x: int| 0 < x < v.len() ==> (#[trigger] v[x]).1 >= next_depth(depth)
        }),
    decreases fuel, 0nat,
{
    if fuel > 0 && !(filtering && !kept.contains(id)) {
        let list = visit_list(
            tree,
            shown_children(tree, id, sort),
            next_depth(depth),
            filtering,
            kept,
            sort,
            (fuel - 1) as nat,
        );
        lemma_visit_list_depths(
            tree,
            shown_children(tree, id, sort),
            next_depth(depth),
            filtering,
            kept,
            sort,
            (fuel - 1) as nat,
        );
        let v = visit(tree, id, depth, filtering, kept, sort, fuel);
        assert forall|x: int| 0 < x < v.len() implies (#[trigger] v[x]).1 >= next_depth(depth) by {
            assert(v[x] == list[x - 1]);
        }
    }
}

proof fn lemma_visit_list_depths(
    tree: OutlineTree,
    ids: Seq<u128>,
    depth: u16,
    filtering: bool,
    kept: Set<u128>,
    sort: OutlineSort,
    fuel: nat,
)
    ensures
        forall|x: int|
            0 <= x < visit_list(tree, ids, depth, filtering, kept, sort, fuel).len() ==> (
            #[trigger] visit_list(tree, ids, depth, filtering, kept, sort, fuel)[x]).1 >= depth,
    decreases fuel, ids.len() + 1,
{
    if ids.len() > 0 {
        lemma_visit_depths(tree, ids[0], depth, filtering, kept, sort, fuel);
        lemma_visit_list_depths(tree, ids.drop_first(), depth, filtering, kept, sort, fuel);
        let first = visit(tree, ids[0], depth, filtering, kept, sort, fuel);
        let rest = visit_list(tree, ids.drop_first(), depth, filtering, kept, sort, fuel);
        let o = visit_list(tree, ids, depth, filtering, kept, sort, fuel);
        assert forall|x: int| 0 <= x < o.len() implies (#[trigger] o[x]).1 >= depth by {
            if x < first.len() {
                assert(o[x] == first[x]);
            } else {
                assert(o[x] == rest[x - first.len()]);
            }
        }
    }
}

/// A row of what is shown for `ids` at their own depth shows one of `ids`.
proof fn lemma_list_head(
    tree: OutlineTree,
    ids: Seq<u128>,
    depth: u16,
    filtering: bool,
    kept: Set<u128>,
    sort: OutlineSort,
    fuel: nat,
    x: int,
) -> (i: int)
    requires
        depth < u16::MAX,
        0 <= x < visit_list(tree, ids, depth, filtering, kept, sort, fuel).len(),
        visit_list(tree, ids, depth, filtering, kept, sort, fuel)[x].1 == depth,
    ensures
        0 <= i < ids.len(),
        visit_list(tree, ids, depth, filtering, kept, sort, fuel)[x].0 == ids[i],
    decreases ids.len(),
{
    let first = visit(tree, ids[0], depth, filtering, kept, sort, fuel);
    let rest = visit_list(tree, ids.drop_first(), depth, filtering, kept, sort, fuel);
    let o = visit_list(tree, ids, depth, filtering, kept, sort, fuel);
    lemma_visit_depths(tree, ids[0], depth, filtering, kept, sort, fuel);
    if x < first.len() {
        assert(o[x] == first[x]);
        if x > 0 {
            assert(first[x].1 >= next_depth(depth));
        }
        0
    } else {
        assert(o[x] == rest[x - first.len()]);
        let j = lemma_list_head(tree, ids.drop_first(), depth, filtering, kept, sort, fuel, x - first.len());
        j + 1
    }
}

/// Two rows of what is shown for `ids`, both at the depth of `ids`, show
/// two of `ids` in their order.
proof fn lemma_list_heads_in_order(
    tree: OutlineTree,
    ids: Seq<u128>,
    depth: u16,
    filtering: bool,
    kept: Set<u128>,
    sort: OutlineSort,
    fuel: nat,
    x: int,
    y: int,
) -> (r: (int, int))
    requires
        depth < u16::MAX,
        0 <= x < y < visit_list(tree, ids, depth, filtering, kept, sort, fuel).len(),
        visit_list(tree, ids, depth, filtering, kept, sort, fuel)[x].1 == depth,
        visit_list(tree, ids, depth, filtering, kept, sort, fuel)[y].1 == depth,
    ensures
        0 <= r.0 < r.1 < ids.len(),
        visit_list(tree, ids, depth, filtering, kept, sort, fuel)[x].0 == ids[r.0],
        visit_list(tree, ids, depth, filtering, kept, sort, fuel)[y].0 == ids[r.1],
    decreases ids.len(),
{
    let first = visit(tree, ids[0], depth, filtering, kept, sort, fuel);
    let rest = visit_list(tree, ids.drop_first(), depth, filtering, kept, sort, fuel);
    let o = visit_list(tree, ids, depth, filtering, kept, sort, fuel);
    lemma_visit_depths(tree, ids[0], depth, filtering, kept, sort, fuel);
    if y < first.len() {
        assert(o[y] == first[y]);
        assert(first[y].1 >= next_depth(depth));
        (0, 0)
    } else if x < first.len() {
        assert(o[x] == first[x]);
        if x > 0 {
            assert(first[x].1 >= next_depth(depth));
        }
        assert(o[y] == rest[y - first.len()]);
        let j = lemma_list_head(tree, ids.drop_first(), depth, filtering, kept, sort, fuel, y - first.len());
        (0, j + 1)
    } else {
        assert(o[x] == rest[x - first.len()]);
        assert(o[y] == rest[y - first.len()]);
        let (i, j) = lemma_list_heads_in_order(
            tree,
            ids.drop_first(),
            depth,
            filtering,
            kept,
            sort,
            fuel,
            x - first.len(),
            y - first.len(),
        );
        (i + 1, j + 1)
    }
}

/// In the status view, the rows shown right below a node (its children's
/// rows, one level deeper) come in order of lowercase status, and rows with
/// the same lowercase status in order of lowercase title.
pub proof fn lemma_child_rows_in_status_order(
    tree: OutlineTree,
    id: u128,
    depth: u16,
    filtering: bool,
    kept: Set<u128>,
    fuel: nat,
    x: int,
    y: int,
)
    requires
        depth + 1 < u16::MAX,
        0 <= x < y < visit(tree, id, depth, filtering, kept, OutlineSort::Status, fuel).len(),
        visit(tree, id, depth, filtering, kept, OutlineSort::Status, fuel)[x].1 == depth + 1,
        visit(tree, id, depth, filtering, kept, OutlineSort::Status, fuel)[y].1 == depth + 1,
    ensures
        ({
            let v = visit(tree, id, depth, filtering, kept, OutlineSort::Status, fuel);
            let a = v[x].0;
            let b = v[y].0;
            &&& node(tree, id).children@.contains(a) && node(tree, id).children@.contains(b)
            &&& lowercase_status(tree, a) != lowercase_status(tree, b) ==> lex_le(
                lowercase_status(tree, a),
                lowercase_status(tree, b),
            )
            &&& lowercase_status(tree, a) == lowercase_status(tree, b) ==> lex_le(
                lowercase_title(tree, a),
                lowercase_title(tree, b),
            )
        }),
{
    let sort = OutlineSort::Status;
    let v = visit(tree, id, depth, filtering, kept, sort, fuel);
    let shown = shown_children(tree, id, sort);
    let e = next_depth(depth);
    let list = visit_list(tree, shown, e, filtering, kept, sort, (fuel - 1) as nat);
    assert(v[0].1 == depth);
    assert(v == seq![(id, depth)] + list);
    assert(v[x] == list[x - 1] && v[y] == list[y - 1]);
    let (i, j) = lemma_list_heads_in_order(tree, shown, e, filtering, kept, sort, (fuel - 1) as nat, x - 1, y - 1);
    lemma_status_order_ties_by_title(tree, id, i, j);
    lemma_shown_children_sorted(tree, id, sort);
}

proof fn lemma_visit_kept(
    tree: OutlineTree,
    id: u128,
    depth: u16,
    kept: Set<u128>,
    sort: OutlineSort,
    fuel: nat,
)
    ensures
        forall|i: int|
            0 <= i < visit(tree, id, depth, true, kept, sort, fuel).len() ==> kept.contains(
                (#[trigger] visit(tree, id, depth, true, kept, sort, fuel)[i]).0,
            ),
    decreases fuel, 0nat,
{
    if fuel > 0 && kept.contains(id) {
        let children = shown_children(tree, id, sort);
        let below = visit_list(tree, children, next_depth(depth), true, kept, sort, (fuel - 1) as nat);
        lemma_visit_list_kept(tree, children, next_depth(depth), kept, sort, (fuel - 1) as nat);
        let all = visit(tree, id, depth, true, kept, sort, fuel);
        assert forall|i: int| 0 <= i < all.len() implies kept.contains((#[trigger] all[i]).0) by {
            if i > 0 {
                assert(all[i] == below[i - 1]);
            }
        }
    }
}

proof fn lemma_visit_list_kept(
    tree: OutlineTree,
    ids: Seq<u128>,
    depth: u16,
    kept: Set<u128>,
    sort: OutlineSort,
    fuel: nat,
)
    ensures
        forall|i: int|
            0 <= i < visit_list(tree, ids, depth, true, kept, sort, fuel).len() ==> kept.contains(
                (#[trigger] visit_list(tree, ids, depth, true, kept, sort, fuel)[i]).0,
            ),
    decreases fuel, ids.len() + 1,
{
    if ids.len() > 0 {
        let head = visit(tree, ids[0], depth, true, kept, sort, fuel);
        let rest = visit_list(tree, ids.drop_first(), depth, true, kept, sort, fuel);
        lemma_visit_kept(tree, ids[0], depth, kept, sort, fuel);
        lemma_visit_list_kept(tree, ids.drop_first(), depth, kept, sort, fuel);
        let all = visit_list(tree, ids, depth, true, kept, sort, fuel);
        assert forall|i: int| 0 <= i < all.len() implies kept.contains((#[trigger] all[i]).0) by {
            if i < head.len() {
                assert(all[i] == head[i]);
            } else {
                assert(all[i] == rest[i - head.len()]);
            }
        }
    }
}

/// With a non-empty filter, every node shown matches the filter or is an
/// ancestor of a reached node that does.
pub proof fn lemma_filter_shows_only_kept(
    tree: OutlineTree,
    focus: Option<u128>,
    filter: Seq<char>,
    sort: OutlineSort,
)
    requires
        filter_query(filter).len() > 0,
    ensures
        forall|i: int|
            0 <= i < snapshot_order(tree, focus, filter, sort).len() ==> kept_by_filter(
                tree,
                filter_query(filter),
                (#[trigger] snapshot_order(tree, focus, filter, sort)[i]).0,
            ),
{
    let query = filter_query(filter);
    let kept = Set::new(|x: u128| kept_by_filter(tree, query, x));
    lemma_visit_list_kept(tree, display_roots(tree, focus), 0, kept, sort, path_bound(tree));
}

/// The view a pane opens a node in: the outline for a built-in root, the
/// attachment view for an attachment, else the editor.
pub open spec fn preferred_view(tree: OutlineTree, id: u128) -> PaneView {
    if !has_node(tree, id) {
        PaneView::Editor
    } else if node(tree, id).is_root {
        PaneView::Outline
    } else {
        match node(tree, id).metadata {
            Some(m) => if m.has_attachment {
                PaneView::Attachment
            } else {
                PaneView::Editor
            },
            None => PaneView::Editor,
        }
    }
}

/// The view a pane opens `id` in.
pub fn preferred_view_for_node(tree: &OutlineTree, id: u128) -> (view: PaneView)
    ensures
        view == preferred_view(*tree, id),
{
    match tree.nodes.get(&id) {
        None => PaneView::Editor,
        Some(n) => if n.is_root {
            PaneView::Outline
        } else {
            match &n.metadata {
                Some(m) => if m.has_attachment {
                    PaneView::Attachment
                } else {
                    PaneView::Editor
                },
                None => PaneView::Editor,
            }
        },
    }
}

proof fn lemma_ancestor_shift(tree: OutlineTree, id: u128, i: nat, j: nat, t: nat)
    requires
        ancestor(tree, id, i) == ancestor(tree, id, j),
    ensures
        ancestor(tree, id, i + t) == ancestor(tree, id, j + t),
    decreases t,
{
    if t > 0 {
        lemma_ancestor_shift(tree, id, i, j, (t - 1) as nat);
        assert(ancestor(tree, id, i + t) == match ancestor(tree, id, (i + t - 1) as nat) {
            Some(a) => if has_node(tree, a) {
                node(tree, a).parent
            } else {
                None
            },
            None => None,
        });
        assert(ancestor(tree, id, j + t) == match ancestor(tree, id, (j + t - 1) as nat) {
            Some(a) => if has_node(tree, a) {
                node(tree, a).parent
            } else {
                None
            },
            None => None,
        });
    }
}

proof fn lemma_ancestor_repeats(tree: OutlineTree, id: u128, i: nat, steps: nat, k: nat)
    requires
        i < steps,
        ancestor(tree, id, i) == ancestor(tree, id, steps),
        k >= i,
    ensures
        exists|j: nat| j < steps && #[trigger] ancestor(tree, id, j) == ancestor(tree, id, k),
    decreases k,
{
    if k < steps {
        assert(ancestor(tree, id, k) == ancestor(tree, id, k));
    } else {
        let p = (steps - i) as nat;
        lemma_ancestor_shift(tree, id, i, steps, (k - steps) as nat);
        assert(ancestor(tree, id, (i + (k - steps)) as nat) == ancestor(tree, id, k));
        lemma_ancestor_repeats(tree, id, i, steps, (k - p) as nat);
    }
}

proof fn lemma_ancestor_none_after(tree: OutlineTree, id: u128, steps: nat, k: nat)
    requires
        ancestor(tree, id, steps) is None,
        k >= steps,
    ensures
        ancestor(tree, id, k) is None,
    decreases k,
{
    if k > steps {
        lemma_ancestor_none_after(tree, id, steps, (k - 1) as nat);
    }
}

/// `id` lies at or below `research`: the research root is among its
/// ancestors, itself included.
pub open spec fn within(tree: OutlineTree, id: u128, research: u128) -> bool {
    exists|k: nat| #[trigger] ancestor(tree, id, k) == Some(research)
}

/// Whether `id` lies in the research folder whose root is `research`.
pub fn is_within_research(tree: &OutlineTree, id: u128, research: u128) -> (r: bool)
    ensures
        r == within(*tree, id, research),
{
    let ghost dom = tree.nodes@.dom();
    let mut current: Option<u128> = Some(id);
    let mut seen: BTreeSet<u128> = BTreeSet::new();
    let ghost mut steps: nat = 0;
    loop
        invariant
            dom == tree.nodes@.dom(),
            dom.finite(),
            current == ancestor(*tree, id, steps),
            forall|j: nat| j < steps ==> seen@.contains(#[trigger] ancestor(*tree, id, j)->0)
                && ancestor(*tree, id, j) is Some,
            forall|v: u128|
                seen@.contains(v) ==> exists|j: nat| j < steps && #[trigger] ancestor(*tree, id, j) == Some(v),
            forall|j: nat| j < steps ==> #[trigger] ancestor(*tree, id, j) != Some(research),
        decreases dom.difference(seen@).len() + if current is Some {
            1nat
        } else {
            0nat
        },
    {
        let v = match current {
            None => {
                proof {
                    assert forall|k: nat| #[trigger] ancestor(*tree, id, k) != Some(research) by {
                        if k >= steps {
                            lemma_ancestor_none_after(*tree, id, steps, k);
                        }
                    }
                }
                return false;
            },
            Some(v) => v,
        };
        let ghost before = seen@;
        if !seen.insert(v) {
            proof {
                let i = choose|j: nat| j < steps && #[trigger] ancestor(*tree, id, j) == Some(v);
                assert forall|k: nat| #[trigger] ancestor(*tree, id, k) != Some(research) by {
                    if k >= steps {
                        lemma_ancestor_repeats(*tree, id, i, steps, k);
                        let j = choose|j: nat| j < steps && #[trigger] ancestor(*tree, id, j) == ancestor(
                            *tree,
                            id,
                            k,
                        );
                    }
                }
            }
            return false;
        }
        if v == research {
            return true;
        }
        proof {
            assert(dom.difference(seen@) =~= dom.difference(before).remove(v));
            if !dom.contains(v) {
                assert(dom.difference(seen@) =~= dom.difference(before));
            }
            assert forall|j: nat| j < steps + 1 implies seen@.contains(#[trigger] ancestor(*tree, id, j)->0)
                && ancestor(*tree, id, j) is Some by {
                if j < steps {
                    assert(before.contains(ancestor(*tree, id, j)->0));
                }
            }
            assert forall|w: u128| seen@.contains(w) implies exists|j: nat|
                j < steps + 1 && #[trigger] ancestor(*tree, id, j) == Some(w) by {
                if w == v {
                    assert(ancestor(*tree, id, steps) == Some(w));
                } else {
                    assert(before.contains(w));
                }
            }
        }
        current = match tree.nodes.get(&v) {
            Some(n) => n.parent,
            None => None,
        };
        proof {
            steps = steps + 1;
        }
    }
}

} // verus!
