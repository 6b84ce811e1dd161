//! Unicode-aware text statistics, search-body normalization, and the
//! deterministic FNV-1a change detector.

use crate::chars::{
    char_is_alphanumeric, char_is_whitespace, chars_of, is_alphanumeric_char, is_whitespace_char,
    string_from_chars,
};
use vstd::prelude::*;
use vstd::utf8::encode_utf8;

verus! {

/// Derived count rules shared by document, selection, and aggregate displays.
#[derive(Clone, Copy, Debug, Default, Eq, PartialEq)]
pub struct TextStatistics {
    /// Unicode word count. A word is a run containing at least one Unicode
    /// letter or number; apostrophes and hyphens join runs only between words.
    pub words: u64,
    /// Unicode scalar values, including whitespace and punctuation.
    pub characters: u64,
}

/// Apostrophes and hyphens (ASCII and typographic) that continue a word.
pub open spec fn is_word_joiner(c: char) -> bool {
    c == '\'' || c == '\u{2019}' || c == '-' || c == '\u{2011}'
}

/// Whether a word is still open after reading all of `s`: the last
/// non-joiner character is a letter or number, and any joiners after it
/// extend that word.
pub open spec fn ends_in_word(s: Seq<char>) -> bool
    decreases s.len(),
{
    if s.len() == 0 {
        false
    } else if is_alphanumeric_char(s.last()) {
        true
    } else if is_word_joiner(s.last()) {
        ends_in_word(s.drop_last())
    } else {
        false
    }
}

/// Number of words of `s`: a letter or number starts a new word unless a
/// word is already open before it.
pub open spec fn word_count(s: Seq<char>) -> nat
    decreases s.len(),
{
    if s.len() == 0 {
        0
    } else {
        word_count(s.drop_last()) + if is_alphanumeric_char(s.last()) && !ends_in_word(
            s.drop_last(),
        ) {
            1nat
        } else {
            0nat
        }
    }
}

pub proof fn lemma_word_count_bound(s: Seq<char>)
    ensures
        word_count(s) <= s.len(),
    decreases s.len(),
{
    if s.len() > 0 {
        lemma_word_count_bound(s.drop_last());
    }
}

proof fn lemma_after_break(p: Seq<char>, b: Seq<char>)
    requires
        !ends_in_word(p),
    ensures
        ends_in_word(p + b) == ends_in_word(b),
        word_count(p + b) == word_count(p) + word_count(b),
    decreases b.len(),
{
    if b.len() == 0 {
        assert(p + b =~= p);
    } else {
        lemma_after_break(p, b.drop_last());
        assert((p + b).drop_last() =~= p + b.drop_last());
        assert((p + b).last() == b.last());
    }
}

/// Joining two texts with a space adds their statistics: the space ends any
/// word of `a`, so `text_statistics(a + " " + b)` has the words of both and
/// one character more than both, while the counts fit in `u64`.
pub proof fn lemma_statistics_join(a: Seq<char>, b: Seq<char>)
    requires
        a.len() + b.len() + 1 <= u64::MAX,
    ensures
        word_count(a + seq![' '] + b) == word_count(a) + word_count(b),
        statistics_of(a + seq![' '] + b) == (TextStatistics {
            words: (statistics_of(a).words + statistics_of(b).words) as u64,
            characters: (statistics_of(a).characters + statistics_of(b).characters + 1) as u64,
        }),
{
    let p = a + seq![' '];
    assert(p.drop_last() =~= a);
    assert(p.last() == ' ');
    assert(!ends_in_word(p));
    assert(word_count(p) == word_count(a));
    lemma_after_break(p, b);
    lemma_word_count_bound(a);
    lemma_word_count_bound(b);
}

/// Words and the open-word state after `t` depend on what precedes `t` only
/// through whether a word is open before it.
pub proof fn lemma_word_state_extends(a: Seq<char>, b: Seq<char>, t: Seq<char>)
    requires
        ends_in_word(a) == ends_in_word(b),
    ensures
        ends_in_word(a + t) == ends_in_word(b + t),
        word_count(a + t) - word_count(a) == word_count(b + t) - word_count(b),
    decreases t.len(),
{
    if t.len() == 0 {
        assert(a + t =~= a);
        assert(b + t =~= b);
    } else {
        let front = t.drop_last();
        lemma_word_state_extends(a, b, front);
        assert((a + t).drop_last() =~= a + front);
        assert((b + t).drop_last() =~= b + front);
        assert((a + t).last() == t.last());
        assert((b + t).last() == t.last());
    }
}

/// Once `t` holds a character that is not a word joiner, whether a word is
/// open after `a + t` no longer depends on `a`.
pub proof fn lemma_word_state_decided(a: Seq<char>, t: Seq<char>, k: int)
    requires
        0 <= k < t.len(),
        !is_word_joiner(t[k]),
    ensures
        ends_in_word(a + t) == ends_in_word(t),
    decreases t.len(),
{
    assert((a + t).last() == t.last());
    assert((a + t).drop_last() =~= a + t.drop_last());
    if k < t.len() - 1 {
        lemma_word_state_decided(a, t.drop_last(), k);
    }
}

/// The statistics of a character sequence.
pub open spec fn statistics_of(s: Seq<char>) -> TextStatistics {
    TextStatistics { words: word_count(s) as u64, characters: s.len() as u64 }
}

/// Counts source text without locale-sensitive platform APIs.
pub fn text_statistics(text: &str) -> (stats: TextStatistics)
    ensures
        stats == statistics_of(text@),
        stats.words == word_count(text@),
        stats.characters == text@.len(),
{
    let chars = chars_of(text);
    let mut words: u64 = 0;
    let mut in_word = false;
    let mut i: usize = 0;
    while i < chars.len()
        invariant
            i <= chars@.len(),
            chars@ == text@,
            words == word_count(text@.take(i as int)),
            in_word == ends_in_word(text@.take(i as int)),
        decreases chars.len() - i,
    {
        let c = chars[i];
        proof {
            let next = text@.take(i + 1);
            assert(next.drop_last() =~= text@.take(i as int));
            assert(next.last() == c);
            lemma_word_count_bound(text@.take(i as int));
        }
        if char_is_alphanumeric(c) {
            if !in_word {
                words = words + 1;
                in_word = true;
            }
        } else if c != '\'' && c != '\u{2019}' && c != '-' && c != '\u{2011}' {
            in_word = false;
        }
        i = i + 1;
    }
    assert(text@.take(i as int) =~= text@);
    TextStatistics { words, characters: chars.len() as u64 }
}

/// Search-body normalization of one character: letters, numbers,
/// whitespace, and word joiners are kept; Markdown syntax, link punctuation,
/// and formatting delimiters become spaces.
pub open spec fn normalized_char(c: char) -> char {
    if is_alphanumeric_char(c) || is_whitespace_char(c) || is_word_joiner(c) {
        c
    } else {
        ' '
    }
}

/// Search-body normalization of a character sequence.
pub open spec fn normalized_text(s: Seq<char>) -> Seq<char> {
    Seq::new(s.len(), |i: int| normalized_char(s[i]))
}

/// Normalizes a Markdown body for the search index and counts it with the
/// same rules as `text_statistics`. `cancelled` is polled before the first
/// character and every 4,096 characters after it; the result is `None` only
/// when a poll reported cancellation.
pub fn normalize_markdown<F: Fn() -> bool>(body: &str, cancelled: &F) -> (result: Option<
    (String, TextStatistics),
>)
    requires
        cancelled.requires(()),
    ensures
        result matches Some((normalized, stats)) ==> normalized@ == normalized_text(body@) && stats
            == statistics_of(body@),
        result is None ==> body@.len() > 0,
        (forall|r: bool| #[trigger] cancelled.ensures((), r) ==> !r) ==> result is Some,
{
    let chars = chars_of(body);
    let mut normalized: Vec<char> = Vec::new();
    let mut words: u64 = 0;
    let mut in_word = false;
    let mut i: usize = 0;
    while i < chars.len()
        invariant
            i <= chars@.len(),
            chars@ == body@,
            cancelled.requires(()),
            normalized@ == normalized_text(body@.take(i as int)),
            words == word_count(body@.take(i as int)),
            in_word == ends_in_word(body@.take(i as int)),
        decreases chars.len() - i,
    {
        if i % 4096 == 0 {
            let stop = cancelled();
            if stop {
                return None;
            }
        }
        let c = chars[i];
        proof {
            let next = body@.take(i + 1);
            assert(next.drop_last() =~= body@.take(i as int));
            assert(next.last() == c);
            lemma_word_count_bound(body@.take(i as int));
        }
        let alphanumeric = char_is_alphanumeric(c);
        let joiner = c == '\'' || c == '\u{2019}' || c == '-' || c == '\u{2011}';
        if alphanumeric {
            if !in_word {
                words = words + 1;
            }
            in_word = true;
        } else if !joiner {
            in_word = false;
        }
        let keep = alphanumeric || joiner || char_is_whitespace(c);
        normalized.push(if keep { c } else { ' ' });
        i = i + 1;
        assert(normalized@ =~= normalized_text(body@.take(i as int)));
    }
    assert(body@.take(i as int) =~= body@);
    Some((string_from_chars(&normalized), TextStatistics { words, characters: chars.len() as u64 }))
}

/// 64-bit FNV-1a offset basis.
pub const FNV_OFFSET_BASIS: u64 = 0xcbf2_9ce4_8422_2325;

/// 64-bit FNV-1a prime.
pub const FNV_PRIME: u64 = 0x0000_0100_0000_01b3;

/// 64-bit FNV-1a over a byte sequence: start from the offset basis; for each
/// byte, xor it in and multiply by the prime modulo 2^64.
pub open spec fn fnv1a_hash(bytes: Seq<u8>) -> u64
    decreases bytes.len(),
{
    if bytes.len() == 0 {
        FNV_OFFSET_BASIS
    } else {
        let h = fnv1a_hash(bytes.drop_last()) ^ (bytes.last() as u64);
        ((h as int * FNV_PRIME as int) % 0x1_0000_0000_0000_0000) as u64
    }
}

/// FNV-1a of a byte slice.
pub fn fnv1a_bytes(bytes: &[u8]) -> (hash: u64)
    ensures
        hash == fnv1a_hash(bytes@),
{
    let mut hash: u64 = FNV_OFFSET_BASIS;
    let mut i: usize = 0;
    while i < bytes.len()
        invariant
            i <= bytes@.len(),
            hash == fnv1a_hash(bytes@.take(i as int)),
        decreases bytes.len() - i,
    {
        let ghost next = bytes@.take(i + 1);
        assert(next.drop_last() =~= bytes@.take(i as int));
        hash = hash ^ (bytes[i] as u64);
        hash = hash.wrapping_mul(FNV_PRIME);
        i = i + 1;
    }
    assert(bytes@.take(i as int) =~= bytes@);
    hash
}

/// FNV-1a of a string's UTF-8 bytes, reinterpreted as a signed integer for
/// the index's 64-bit signed column.
pub fn fnv1a(source: &str) -> (hash: i64)
    ensures
        hash == fnv1a_hash(encode_utf8(source@)) as i64,
{
    fnv1a_bytes(source.as_bytes()) as i64
}

/// Availability exposed to UI without a blocking dialog.
#[derive(Clone, Debug, Eq, PartialEq)]
pub enum IndexStatus {
    /// The cache has not scanned canonical bodies yet.
    RebuildNeeded,
    /// A worker is publishing stable, revisioned batches.
    Indexing { revision: u64, completed: u64, total: u64 },
    /// Rows reflect the current workspace mutations.
    Ready,
    /// The cache was unavailable; canonical project access remains normal.
    Unavailable(String),
}

} // verus!

verus! {

/// One outline node as the count rollup reads it: the index of its parent in
/// the same list, and its own document counts (zero for a folder).
#[derive(Clone, Copy, Debug, Eq, PartialEq)]
pub struct CountNode {
    pub parent: Option<usize>,
    pub direct: TextStatistics,
}

/// `order` lists nodes of `nodes` once each, every node after its parent
/// when the parent is listed.
pub open spec fn rollup_order(nodes: Seq<CountNode>, order: Seq<usize>) -> bool {
    &&& forall|k: int| 0 <= k < order.len() ==> (#[trigger] order[k]) < nodes.len()
    &&& forall|u: int|
        0 <= u < nodes.len() ==> (#[trigger] nodes[u].parent matches Some(p) ==> p < nodes.len())
    &&& forall|j: int, k: int| 0 <= j < k < order.len() ==> order[j] != order[k]
    &&& forall|j: int, k: int|
        0 <= j < order.len() && 0 <= k < order.len() && nodes[order[j] as int].parent == Some(
            order[k],
        ) ==> k < j
}

/// The sum of the totals of the listed children of `v`.
pub open spec fn child_totals(nodes: Seq<CountNode>, listed: Seq<usize>, totals: Seq<TextStatistics>, v: int) -> (
    int,
    int,
)
    decreases listed.len(),
{
    if listed.len() == 0 {
        (0, 0)
    } else {
        let rest = child_totals(nodes, listed.drop_first(), totals, v);
        let u = listed[0] as int;
        if nodes[u].parent matches Some(q) && q == v {
            (rest.0 + totals[u].words, rest.1 + totals[u].characters)
        } else {
            rest
        }
    }
}

/// `a + b`, stopping at the largest count.
pub open spec fn saturated(a: int) -> u64 {
    if a <= u64::MAX {
        a as u64
    } else {
        u64::MAX
    }
}

proof fn lemma_child_totals_frame(
    nodes: Seq<CountNode>,
    listed: Seq<usize>,
    totals: Seq<TextStatistics>,
    p: int,
    x: TextStatistics,
    v: int,
)
    requires
        0 <= p < totals.len(),
        forall|k: int| 0 <= k < listed.len() ==> listed[k] != p && listed[k] < totals.len(),
    ensures
        child_totals(nodes, listed, totals.update(p, x), v) == child_totals(nodes, listed, totals, v),
    decreases listed.len(),
{
    if listed.len() > 0 {
        assert forall|k: int| 0 <= k < listed.drop_first().len() implies listed.drop_first()[k] != p
            && listed.drop_first()[k] < totals.len() by {
            assert(listed.drop_first()[k] == listed[k + 1]);
        }
        lemma_child_totals_frame(nodes, listed.drop_first(), totals, p, x, v);
        assert(totals.update(p, x)[listed[0] as int] == totals[listed[0] as int]);
    }
}

proof fn lemma_child_totals_nonneg(nodes: Seq<CountNode>, listed: Seq<usize>, totals: Seq<TextStatistics>, v: int)
    ensures
        child_totals(nodes, listed, totals, v).0 >= 0,
        child_totals(nodes, listed, totals, v).1 >= 0,
    decreases listed.len(),
{
    if listed.len() > 0 {
        lemma_child_totals_nonneg(nodes, listed.drop_first(), totals, v);
    }
}

/// Subtree counts: every node's total is its own counts plus the totals of
/// its listed children, each count saturating at its largest value.
/// Children are rolled into their parents from the end of `order`
/// backwards, so each total is complete before it is added to its parent.
pub fn subtree_counts(nodes: &Vec<CountNode>, order: &Vec<usize>) -> (totals: Vec<TextStatistics>)
    requires
        rollup_order(nodes@, order@),
    ensures
        totals@.len() == nodes@.len(),
        forall|v: int|
            0 <= v < nodes@.len() ==> (#[trigger] totals@[v]).words == saturated(
                nodes@[v].direct.words + child_totals(nodes@, order@, totals@, v).0,
            ) && totals@[v].characters == saturated(
                nodes@[v].direct.characters + child_totals(nodes@, order@, totals@, v).1,
            ),
{
    let mut totals: Vec<TextStatistics> = Vec::new();
    let mut i: usize = 0;
    while i < nodes.len()
        invariant
            i <= nodes@.len(),
            totals@.len() == i,
            forall|v: int| 0 <= v < i ==> (#[trigger] totals@[v]) == nodes@[v].direct,
        decreases nodes.len() - i,
    {
        totals.push(nodes[i].direct);
        i = i + 1;
    }
    let ghost all = order@;
    let mut k: usize = order.len();
    assert(all.subrange(k as int, all.len() as int) =~= Seq::<usize>::empty());
    while k > 0
        invariant
            k <= all.len(),
            all == order@,
            rollup_order(nodes@, all),
            totals@.len() == nodes@.len(),
            forall|v: int|
                0 <= v < nodes@.len() ==> (#[trigger] totals@[v]).words == saturated(
                    nodes@[v].direct.words + child_totals(
                        nodes@,
                        all.subrange(k as int, all.len() as int),
                        totals@,
                        v,
                    ).0,
                ) && totals@[v].characters == saturated(
                    nodes@[v].direct.characters + child_totals(
                        nodes@,
                        all.subrange(k as int, all.len() as int),
                        totals@,
                        v,
                    ).1,
                ),
        decreases k,
    {
        k = k - 1;
        let u = order[k];
        let ghost before = totals@;
        let ghost later = all.subrange(k + 1, all.len() as int);
        let ghost now_listed = all.subrange(k as int, all.len() as int);
        assert(now_listed.drop_first() =~= later);
        assert(now_listed[0] == u);
        match nodes[u].parent {
            Some(p) => {
                let child = totals[u];
                let current = totals[p];
                let sum = TextStatistics {
                    words: current.words.saturating_add(child.words),
                    characters: current.characters.saturating_add(child.characters),
                };
                proof {
                    assert forall|t: int| 0 <= t < later.len() implies later[t] != p && later[t]
                        < before.len() by {
                        assert(later[t] == all[k + 1 + t]);
                        assert(nodes@[u as int].parent == Some(p));
                        assert(nodes@[all[k + 1 + t] as int].parent != Some(all[k + 1 + t]) || k + 1
                            + t < k + 1 + t);
                        if later[t] == p {
                            assert(nodes@[all[k as int] as int].parent == Some(all[k + 1 + t]));
                        }
                    }
                    if u == p {
                        assert(nodes@[all[k as int] as int].parent == Some(all[k as int]));
                    }
                    assert(u != p);
                }
                totals.set(p, sum);
                proof {
                    assert(totals@ == before.update(p as int, sum));
                    assert(totals@[u as int] == before[u as int]);
                    assert forall|v: int| 0 <= v < nodes@.len() implies (#[trigger] totals@[v]).words
                        == saturated(
                        nodes@[v].direct.words + child_totals(nodes@, now_listed, totals@, v).0,
                    ) && totals@[v].characters == saturated(
                        nodes@[v].direct.characters + child_totals(nodes@, now_listed, totals@, v).1,
                    ) by {
                        lemma_child_totals_frame(nodes@, later, before, p as int, sum, v);
                        lemma_child_totals_nonneg(nodes@, later, before, v);
                        let rest = child_totals(nodes@, later, before, v);
                        if v == p as int {
                            assert(child_totals(nodes@, now_listed, totals@, v) == (
                            rest.0 + before[u as int].words, rest.1 + before[u as int].characters));
                        } else {
                            assert(now_listed.drop_first() == later);
                            assert(now_listed[0] == u);
                            assert(nodes@[u as int].parent == Some(p));
                            assert(child_totals(nodes@, now_listed, totals@, v) == child_totals(
                                nodes@,
                                later,
                                totals@,
                                v,
                            ));
                            assert(child_totals(nodes@, now_listed, totals@, v) == rest);
                            assert(totals@[v] == before[v]);
                        }
                    }
                }
            },
            None => {
                proof {
                    assert forall|v: int| 0 <= v < nodes@.len() implies (#[trigger] totals@[v]).words
                        == saturated(
                        nodes@[v].direct.words + child_totals(nodes@, now_listed, totals@, v).0,
                    ) && totals@[v].characters == saturated(
                        nodes@[v].direct.characters + child_totals(nodes@, now_listed, totals@, v).1,
                    ) by {}
                }
            },
        }
    }
    assert(all.subrange(0, all.len() as int) =~= all);
    totals
}

} // verus!
