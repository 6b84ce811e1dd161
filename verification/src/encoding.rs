//! UTF-8 and UTF-16 lengths of characters and the byte offsets of character
//! positions within a string.

use vstd::prelude::*;
use vstd::utf8::{
    char_is_scalar, encode_scalar, encode_utf8, encode_utf8_first_scalar, encode_utf8_valid_utf8,
    is_char_boundary, is_leading_byte_width_1, is_leading_byte_width_2, is_leading_byte_width_3,
    length_of_first_scalar, pop_first_scalar, valid_utf8,
};

verus! {

/// Number of UTF-8 bytes that encode `c`.
pub open spec fn utf8_len(c: char) -> nat {
    encode_scalar(c as u32).len()
}

/// Number of UTF-16 code units that encode `c`: one inside the Basic
/// Multilingual Plane, two (a surrogate pair) above it.
pub open spec fn utf16_len(c: char) -> nat {
    if (c as u32) < 0x10000 {
        1
    } else {
        2
    }
}

/// Total UTF-8 length of a character sequence.
pub open spec fn byte_len(s: Seq<char>) -> nat
    decreases s.len(),
{
    if s.len() == 0 {
        0
    } else {
        byte_len(s.drop_last()) + utf8_len(s.last())
    }
}

/// Byte offset of character position `k` of `s`.
pub open spec fn byte_offset(s: Seq<char>, k: int) -> nat {
    byte_len(s.take(k))
}

/// `char::len_utf8`.
pub fn char_len_utf8(c: char) -> (n: usize)
    ensures
        n == utf8_len(c),
        1 <= n <= 4,
{
    proof {
        char_is_scalar(c);
    }
    let v = c as u32;
    if v <= 0x7F {
        1
    } else if v <= 0x7FF {
        2
    } else if v <= 0xFFFF {
        3
    } else {
        4
    }
}

/// `char::len_utf16`.
pub fn char_len_utf16(c: char) -> (n: usize)
    ensures
        n == utf16_len(c),
{
    if (c as u32) < 0x10000 {
        1
    } else {
        2
    }
}

/// Every character takes at least one byte.
pub proof fn lemma_utf8_len_pos(c: char)
    ensures
        1 <= utf8_len(c) <= 4,
{
    char_is_scalar(c);
}

/// UTF-8 encoding distributes over concatenation.
pub proof fn lemma_encode_utf8_concat(a: Seq<char>, b: Seq<char>)
    ensures
        encode_utf8(a + b) == encode_utf8(a) + encode_utf8(b),
    decreases a.len(),
{
    if a.len() == 0 {
        assert(a + b =~= b);
        assert(encode_utf8(a) =~= Seq::<u8>::empty());
        assert(encode_utf8(a) + encode_utf8(b) =~= encode_utf8(b));
    } else {
        assert((a + b).drop_first() =~= a.drop_first() + b);
        assert((a + b)[0] == a[0]);
        lemma_encode_utf8_concat(a.drop_first(), b);
        assert(encode_utf8(a + b) =~= encode_utf8(a) + encode_utf8(b));
    }
}

/// `byte_len` is the length of the UTF-8 encoding.
pub proof fn lemma_byte_len_is_encoding_len(s: Seq<char>)
    ensures
        byte_len(s) == encode_utf8(s).len(),
    decreases s.len(),
{
    if s.len() > 0 {
        lemma_byte_len_is_encoding_len(s.drop_last());
        assert(s =~= s.drop_last() + seq![s.last()]);
        lemma_encode_utf8_concat(s.drop_last(), seq![s.last()]);
        assert(seq![s.last()].drop_first() =~= Seq::<char>::empty());
        assert(encode_utf8(seq![s.last()]) =~= encode_scalar(s.last() as u32) + encode_utf8(
            Seq::<char>::empty(),
        ));
    }
}

/// Prepending a character adds its UTF-8 length.
pub proof fn lemma_byte_len_prepend(c: char, t: Seq<char>)
    ensures
        byte_len(seq![c] + t) == utf8_len(c) + byte_len(t),
    decreases t.len(),
{
    if t.len() == 0 {
        assert(seq![c] + t =~= seq![c]);
        assert(seq![c].drop_last() =~= Seq::<char>::empty());
        assert(seq![c].last() == c);
        assert(byte_len(Seq::<char>::empty()) == 0);
        assert(byte_len(t) == 0);
        assert(byte_len(seq![c]) == byte_len(seq![c].drop_last()) + utf8_len(c));
    } else {
        let u = seq![c] + t;
        assert(u.drop_last() =~= seq![c] + t.drop_last());
        assert(u.last() == t.last());
        lemma_byte_len_prepend(c, t.drop_last());
        assert(byte_len(u) == byte_len(u.drop_last()) + utf8_len(u.last()));
        assert(byte_len(t) == byte_len(t.drop_last()) + utf8_len(t.last()));
    }
}

/// Byte offsets grow strictly with character positions.
pub proof fn lemma_byte_offset_strict(s: Seq<char>, j: int, k: int)
    requires
        0 <= j < k <= s.len(),
    ensures
        byte_offset(s, j) < byte_offset(s, k),
    decreases k - j,
{
    assert(s.take(k).drop_last() =~= s.take(k - 1));
    lemma_utf8_len_pos(s[k - 1]);
    if j < k - 1 {
        lemma_byte_offset_strict(s, j, k - 1);
    }
}

/// Byte offsets never exceed the total length.
pub proof fn lemma_byte_offset_bound(s: Seq<char>, k: int)
    requires
        0 <= k <= s.len(),
    ensures
        byte_offset(s, k) <= byte_len(s),
{
    assert(s.take(s.len() as int) =~= s);
    if k < s.len() {
        lemma_byte_offset_strict(s, k, s.len() as int);
    }
}

/// `str::len`: the UTF-8 length of a string slice.
pub fn str_byte_len(s: &str) -> (n: usize)
    ensures
        n == byte_len(s@),
        n == encode_utf8(s@).len(),
{
    proof {
        lemma_byte_len_is_encoding_len(s@);
    }
    s.as_bytes().len()
}

/// The byte offset of every character position `0..=s.len()`.
pub fn char_byte_offsets(s: &Vec<char>, total: usize) -> (offsets: Vec<usize>)
    requires
        total == byte_len(s@),
    ensures
        offsets@.len() == s@.len() + 1,
        forall|k: int| 0 <= k <= s@.len() ==> #[trigger] offsets@[k] == byte_offset(s@, k),
{
    let mut offsets: Vec<usize> = Vec::new();
    offsets.push(0);
    assert(s@.take(0) =~= Seq::<char>::empty());
    let mut byte: usize = 0;
    let mut k: usize = 0;
    while k < s.len()
        invariant
            k <= s@.len(),
            total == byte_len(s@),
            byte == byte_offset(s@, k as int),
            offsets@.len() == k + 1,
            forall|t: int| 0 <= t <= k ==> #[trigger] offsets@[t] == byte_offset(s@, t),
        decreases s.len() - k,
    {
        proof {
            assert(s@.take(k + 1).drop_last() =~= s@.take(k as int));
            lemma_byte_offset_bound(s@, k + 1);
            assert(s@.take(s@.len() as int) =~= s@);
        }
        let n = char_len_utf8(s[k]);
        byte = byte + n;
        k = k + 1;
        offsets.push(byte);
    }
    offsets
}

/// The character position whose byte offset is `byte`.
pub fn find_offset(offsets: &Vec<usize>, byte: usize, Ghost(s): Ghost<Seq<char>>) -> (k: usize)
    requires
        offsets@.len() == s.len() + 1,
        forall|t: int| 0 <= t <= s.len() ==> #[trigger] offsets@[t] == byte_offset(s, t),
        exists|t: int| 0 <= t <= s.len() && byte == byte_offset(s, t),
    ensures
        k <= s.len(),
        offsets@[k as int] == byte,
        forall|t: int| 0 <= t <= s.len() && byte == #[trigger] byte_offset(s, t) ==> t == k,
{
    let ghost witness = choose|t: int| 0 <= t <= s.len() && byte == byte_offset(s, t);
    let mut k: usize = 0;
    while k < offsets.len()
        invariant
            k <= offsets@.len(),
            offsets@.len() == s.len() + 1,
            forall|t: int| 0 <= t <= s.len() ==> #[trigger] offsets@[t] == byte_offset(s, t),
            0 <= witness <= s.len(),
            byte == byte_offset(s, witness),
            forall|t: int| 0 <= t < k ==> #[trigger] offsets@[t] != byte,
        decreases offsets.len() - k,
    {
        if offsets[k] == byte {
            proof {
                assert forall|t: int| 0 <= t <= s.len() && byte == byte_offset(s, t) implies t
                    == k by {
                    if t < k {
                        lemma_byte_offset_strict(s, t, k as int);
                    } else if t > k {
                        lemma_byte_offset_strict(s, k as int, t);
                    }
                }
            }
            return k;
        }
        k = k + 1;
    }
    assert(offsets@[witness] == byte);
    0
}

} // verus!

verus! {

/// The length of the UTF-8 encoding that a leading byte announces.
pub open spec fn lead_width(byte: u8) -> int {
    if is_leading_byte_width_1(byte) {
        1
    } else if is_leading_byte_width_2(byte) {
        2
    } else if is_leading_byte_width_3(byte) {
        3
    } else {
        4
    }
}

/// In valid UTF-8, the character starting at a boundary ends at the next
/// boundary, as far on as its leading byte announces.
pub proof fn lemma_boundary_step(bytes: Seq<u8>, b: int)
    requires
        valid_utf8(bytes),
        is_char_boundary(bytes, b),
        0 <= b < bytes.len(),
    ensures
        b + lead_width(bytes[b]) <= bytes.len(),
        is_char_boundary(bytes, b + lead_width(bytes[b])),
    decreases bytes.len(),
{
    let l = length_of_first_scalar(bytes);
    let pop = pop_first_scalar(bytes);
    assert(pop.len() == bytes.len() - l);
    if b == 0 {
        assert(l == lead_width(bytes[0]));
        assert(is_char_boundary(pop, 0));
    } else {
        assert(is_char_boundary(pop, b - l));
        assert(b - l >= 0);
        if b - l < pop.len() {
            assert(pop[b - l] == bytes[b]);
            lemma_boundary_step(pop, b - l);
        }
    }
}

/// An exact occurrence of a character sequence's encoding that starts on a
/// boundary of valid UTF-8 also ends on one.
pub proof fn lemma_encoded_match_ends_on_boundary(bytes: Seq<u8>, query: Seq<char>, p: int)
    requires
        valid_utf8(bytes),
        is_char_boundary(bytes, p),
        0 <= p,
        p + encode_utf8(query).len() <= bytes.len(),
        forall|j: int|
            0 <= j < encode_utf8(query).len() ==> bytes[p + j] == #[trigger] encode_utf8(query)[j],
    ensures
        is_char_boundary(bytes, p + encode_utf8(query).len()),
    decreases query.len(),
{
    if query.len() > 0 {
        let q = encode_utf8(query);
        let rest = query.drop_first();
        encode_utf8_first_scalar(query);
        char_is_scalar(query[0]);
        let l = length_of_first_scalar(q);
        assert(q == encode_scalar(query[0] as u32) + encode_utf8(rest));
        assert(l == lead_width(q[0]));
        assert(bytes[p] == q[0]);
        lemma_boundary_step(bytes, p);
        assert forall|j: int| 0 <= j < encode_utf8(rest).len() implies bytes[p + l + j]
            == #[trigger] encode_utf8(rest)[j] by {
            assert(q[l + j] == encode_utf8(rest)[j]);
        }
        lemma_encoded_match_ends_on_boundary(bytes, rest, p + l);
    }
}

/// The boundaries of a string's encoding are exactly the byte offsets of its
/// character positions.
pub proof fn lemma_boundary_is_offset(s: Seq<char>, p: int)
    requires
        is_char_boundary(encode_utf8(s), p),
    ensures
        exists|k: int| 0 <= k <= s.len() && p == byte_offset(s, k),
    decreases s.len(),
{
    encode_utf8_valid_utf8(s);
    if p == 0 {
        assert(s.take(0) =~= Seq::<char>::empty());
        assert(p == byte_offset(s, 0));
    } else {
        let bytes = encode_utf8(s);
        assert(s.len() > 0);
        let rest = s.drop_first();
        encode_utf8_first_scalar(s);
        let l = length_of_first_scalar(bytes);
        assert(pop_first_scalar(bytes) =~= encode_utf8(rest));
        assert(is_char_boundary(encode_utf8(rest), p - l));
        lemma_boundary_is_offset(rest, p - l);
        let k = choose|k: int| 0 <= k <= rest.len() && p - l == byte_offset(rest, k);
        assert(s.take(k + 1) =~= seq![s[0]] + rest.take(k));
        lemma_byte_len_prepend(s[0], rest.take(k));
        assert(p == byte_offset(s, k + 1));
    }
}

} // verus!

verus! {

/// Where valid UTF-8 ends and more valid UTF-8 follows, a character starts.
pub proof fn lemma_boundary_at_concat(p: Seq<u8>, x: Seq<u8>)
    requires
        valid_utf8(p),
        valid_utf8(x),
    ensures
        valid_utf8(p + x),
        is_char_boundary(p + x, p.len() as int),
    decreases p.len(),
{
    vstd::utf8::valid_utf8_concat(p, x);
    if p.len() > 0 {
        let l = length_of_first_scalar(p);
        let rest = pop_first_scalar(p);
        assert((p + x)[0] == p[0]);
        assert(length_of_first_scalar(p + x) == l);
        assert(pop_first_scalar(p + x) =~= rest + x);
        lemma_boundary_at_concat(rest, x);
    }
}

} // verus!
