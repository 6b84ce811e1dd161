//! Rust-owned outline snapshot rows that view adapters request lazily, one
//! visible range at a time.

use crate::chars::string_from_chars;
use vstd::prelude::*;

verus! {

/// The decimal digit character for `d < 10`.
pub open spec fn digit_char(d: nat) -> char {
    (48 + d) as char
}

/// Decimal spelling of a natural number, most significant digit first.
pub open spec fn decimal(n: nat) -> Seq<char>
    decreases n,
{
    if n < 10 {
        seq![digit_char(n)]
    } else {
        decimal(n / 10).push(digit_char(n % 10))
    }
}

/// Decimal spelling of `n`.
pub fn decimal_chars(n: u64) -> (v: Vec<char>)
    ensures
        v@ == decimal(n as nat),
    decreases n,
{
    let d = (n % 10) as u8;
    let c = (48u8 + d) as char;
    if n < 10 {
        let v = vec![c];
        assert(v@ =~= seq![digit_char(n as nat)]);
        v
    } else {
        let mut v = decimal_chars(n / 10);
        v.push(c);
        v
    }
}

/// A compact immutable node row suitable for a lazy view-model adapter.
#[derive(Clone, Debug, Eq, PartialEq)]
pub struct TreeRow {
    /// Stable row key.
    pub id: u32,
    /// Optional parent row key.
    pub parent: Option<u32>,
    /// Cached indentation depth.
    pub depth: u16,
    /// Display title.
    pub title: String,
}

/// Outline snapshot. Adapters request only visible row ranges.
#[derive(Clone, Debug)]
pub struct LazyTreeSnapshot {
    rows: Vec<TreeRow>,
}

impl View for LazyTreeSnapshot {
    type V = Seq<TreeRow>;

    closed spec fn view(&self) -> Seq<TreeRow> {
        self.rows@
    }
}

/// `Section <id>`.
pub open spec fn section_title(id: nat) -> Seq<char> {
    seq!['S', 'e', 'c', 't', 'i', 'o', 'n', ' '] + decimal(id)
}

/// The parent of row `id > 0` in the stress tree.
pub open spec fn stress_parent(id: nat) -> nat {
    ((id - 1) / 10) as nat
}

/// The indentation depth of row `id` in the stress tree: 0 at the root,
/// one more than its parent's below it.
pub open spec fn stress_depth(id: nat) -> nat
    decreases id,
{
    if id == 0 {
        0
    } else {
        stress_depth(stress_parent(id)) + 1
    }
}

/// `10` raised to `k`.
pub open spec fn pow10(k: nat) -> nat
    decreases k,
{
    if k == 0 {
        1
    } else {
        10 * pow10((k - 1) as nat)
    }
}

proof fn lemma_stress_depth_bound(id: nat, k: nat)
    requires
        id < pow10(k),
    ensures
        stress_depth(id) <= k,
    decreases k,
{
    if id > 0 {
        let p = pow10((k - 1) as nat);
        assert(k > 0);
        assert(stress_parent(id) < p) by (nonlinear_arith)
            requires
                id < 10 * p,
                id > 0,
                stress_parent(id) == (id - 1) / 10,
        ;
        lemma_stress_depth_bound(stress_parent(id), (k - 1) as nat);
    }
}

/// Row `id` of the stress tree: the root has no parent and depth 0; every
/// other row hangs below row `(id - 1) / 10`, one level deeper than it.
pub open spec fn stress_row_ok(row: TreeRow, id: nat) -> bool {
    &&& row.id == id
    &&& row.parent == if id > 0 {
        Some(stress_parent(id) as u32)
    } else {
        None
    }
    &&& row.depth == stress_depth(id)
    &&& row.title@ == section_title(id)
}

impl LazyTreeSnapshot {
    /// Generates the deterministic stress tree of `count` rows.
    pub fn stress_fixture(count: u32) -> (tree: Self)
        ensures
            tree@.len() == count,
            forall|i: int| 0 <= i < count ==> stress_row_ok(#[trigger] tree@[i], i as nat),
    {
        let mut rows: Vec<TreeRow> = Vec::new();
        let mut id: u32 = 0;
        while id < count
            invariant
                id <= count,
                rows@.len() == id,
                forall|i: int| 0 <= i < id ==> stress_row_ok(#[trigger] rows@[i], i as nat),
            decreases count - id,
        {
            let parent = if id > 0 {
                Some((id - 1) / 10)
            } else {
                None
            };
            let depth: u16 = if id == 0 {
                0
            } else {
                proof {
                    assert(pow10(10) == 10_000_000_000) by {
                        reveal_with_fuel(pow10, 11);
                    }
                    lemma_stress_depth_bound(id as nat, 10);
                }
                rows[((id - 1) / 10) as usize].depth + 1
            };
            let mut title = vec!['S', 'e', 'c', 't', 'i', 'o', 'n', ' '];
            let mut digits = decimal_chars(id as u64);
            title.append(&mut digits);
            let row = TreeRow { id, parent, depth, title: string_from_chars(&title) };
            assert(row.title@ =~= section_title(id as nat));
            rows.push(row);
            id = id + 1;
        }
        LazyTreeSnapshot { rows }
    }

    /// Returns the total row count.
    pub fn len(&self) -> (n: usize)
        ensures
            n == self@.len(),
    {
        self.rows.len()
    }

    /// Returns whether no rows exist.
    pub fn is_empty(&self) -> (b: bool)
        ensures
            b == (self@.len() == 0),
    {
        self.rows.len() == 0
    }

    /// Borrows only the requested visible range, clamped to the snapshot.
    pub fn visible_rows(&self, start: usize, count: usize) -> (rows: &[TreeRow])
        ensures
            rows@ == self@.subrange(
                clamp_start(start as int, self@.len() as int),
                clamp_end(start as int, count as int, self@.len() as int),
            ),
    {
        let len = self.rows.len();
        let first = if start < len {
            start
        } else {
            len
        };
        let last = if count <= len - first {
            first + count
        } else {
            len
        };
        &self.rows.as_slice()[first..last]
    }
}

/// Start of a visible range: `start` clamped to the row count.
pub open spec fn clamp_start(start: int, len: int) -> int {
    if start < len {
        start
    } else {
        len
    }
}

/// End of a visible range: `count` rows after the clamped start, clamped to
/// the row count.
pub open spec fn clamp_end(start: int, count: int, len: int) -> int {
    let first = clamp_start(start, len);
    if first + count <= len {
        first + count
    } else {
        len
    }
}

/// Worker lifecycle failure.
#[derive(Debug)]
pub enum WorkerError {
    /// Worker thread could not start.
    Spawn(std::io::Error),
    /// Worker has already shut down.
    Closed,
}

/// Compile/export worker lifecycle failure.
#[derive(Debug, Clone, Copy, PartialEq, Eq)]
pub enum CompileExportWorkerError {
    /// The compile/export worker is closed.
    Closed,
}

} // verus!
