//! Character sequences, their UTF-8 byte lengths, and small helpers on text.

use vstd::prelude::*;
use vstd::utf8::*;

verus! {

/// Number of bytes in the UTF-8 encoding of `c`.
pub open spec fn char_width(c: char) -> nat {
    if (c as u32) < 0x80 {
        1
    } else if (c as u32) < 0x800 {
        2
    } else if (c as u32) < 0x10000 {
        3
    } else {
        4
    }
}

/// Number of bytes in the UTF-8 encoding of `s`.
pub open spec fn utf8_len(s: Seq<char>) -> nat {
    encode_utf8(s).len()
}

/// `k` is the character index whose prefix is `b` bytes long.
pub open spec fn index_at_byte(t: Seq<char>, k: int, b: int) -> bool {
    0 <= k <= t.len() && utf8_len(t.take(k)) == b
}

/// Byte offset `b` falls between two characters of `t` (or at either end).
pub open spec fn is_boundary(t: Seq<char>, b: int) -> bool {
    exists|k: int| index_at_byte(t, k, b)
}

/// The character index at byte offset `b` (meaningful when `is_boundary(t, b)`).
pub open spec fn char_index_of_byte(t: Seq<char>, b: int) -> int {
    choose|k: int| index_at_byte(t, k, b)
}

/// The characters of `t` between the byte offsets `a` and `b`.
pub open spec fn byte_slice(t: Seq<char>, a: int, b: int) -> Seq<char> {
    t.subrange(char_index_of_byte(t, a), char_index_of_byte(t, b))
}

/// `needle` occurs in `hay` as a contiguous run of characters.
pub open spec fn has_substring(hay: Seq<char>, needle: Seq<char>) -> bool {
    exists|i: int|
        0 <= i && i + needle.len() <= hay.len() && #[trigger] hay.subrange(i, i + needle.len())
            == needle
}

proof fn lemma_scalar_width(c: char)
    ensures
        encode_scalar(c as u32).len() == char_width(c),
{
    char_is_scalar(c);
}

/// The encoding of a concatenation is the concatenation of the encodings.
pub proof fn lemma_encode_concat(a: Seq<char>, b: Seq<char>)
    ensures
        encode_utf8(a + b) == encode_utf8(a) + encode_utf8(b),
    decreases a.len(),
{
    if a.len() == 0 {
        assert(a + b =~= b);
        assert(encode_utf8(a) =~= Seq::<u8>::empty());
        assert(encode_utf8(a) + encode_utf8(b) =~= encode_utf8(b));
    } else {
        assert((a + b).drop_first() =~= a.drop_first() + b);
        lemma_encode_concat(a.drop_first(), b);
        assert((a + b)[0] == a[0]);
        assert(encode_utf8(a + b) =~= encode_scalar(a[0] as u32) + (encode_utf8(a.drop_first())
            + encode_utf8(b)));
    }
}

/// Byte length is additive over concatenation.
pub proof fn lemma_utf8_len_concat(a: Seq<char>, b: Seq<char>)
    ensures
        utf8_len(a + b) == utf8_len(a) + utf8_len(b),
{
    lemma_encode_concat(a, b);
}

/// Byte length of a single character.
pub proof fn lemma_utf8_len_single(c: char)
    ensures
        utf8_len(seq![c]) == char_width(c),
{
    let s = seq![c];
    assert(s.drop_first() =~= Seq::<char>::empty());
    assert(encode_utf8(s.drop_first()) =~= Seq::<u8>::empty());
    lemma_scalar_width(c);
    assert(encode_utf8(s) =~= encode_scalar(c as u32) + Seq::<u8>::empty());
}

/// Extending a prefix by one character adds that character's width.
pub proof fn lemma_utf8_len_take_step(t: Seq<char>, i: int)
    requires
        0 <= i < t.len(),
    ensures
        utf8_len(t.take(i + 1)) == utf8_len(t.take(i)) + char_width(t[i]),
{
    assert(t.take(i + 1) =~= t.take(i) + seq![t[i]]);
    lemma_utf8_len_concat(t.take(i), seq![t[i]]);
    lemma_utf8_len_single(t[i]);
}

/// Every character takes at least one and at most four bytes.
pub proof fn lemma_utf8_len_bounds(s: Seq<char>)
    ensures
        s.len() <= utf8_len(s) <= 4 * s.len(),
    decreases s.len(),
{
    if s.len() > 0 {
        assert(s =~= s.drop_last() + seq![s.last()]);
        lemma_utf8_len_concat(s.drop_last(), seq![s.last()]);
        lemma_utf8_len_single(s.last());
        lemma_utf8_len_bounds(s.drop_last());
    } else {
        assert(encode_utf8(s) =~= Seq::<u8>::empty());
    }
}

/// ASCII text has one byte per character.
pub proof fn lemma_utf8_len_ascii(s: Seq<char>)
    requires
        is_ascii_chars(s),
    ensures
        utf8_len(s) == s.len(),
{
    is_ascii_chars_encode_utf8(s);
}

/// Byte lengths of prefixes grow strictly with the prefix.
pub proof fn lemma_utf8_len_take_strict(t: Seq<char>, i: int, j: int)
    requires
        0 <= i <= j <= t.len(),
    ensures
        utf8_len(t.take(i)) + (j - i) <= utf8_len(t.take(j)),
        utf8_len(t.take(j)) == utf8_len(t.take(i)) + utf8_len(t.subrange(i, j)),
{
    assert(t.take(j) =~= t.take(i) + t.subrange(i, j));
    lemma_utf8_len_concat(t.take(i), t.subrange(i, j));
    lemma_utf8_len_bounds(t.subrange(i, j));
}

/// A boundary has exactly one character index.
pub proof fn lemma_boundary_unique(t: Seq<char>, k: int, b: int)
    requires
        index_at_byte(t, k, b),
    ensures
        is_boundary(t, b),
        char_index_of_byte(t, b) == k,
{
    let j = char_index_of_byte(t, b);
    assert(index_at_byte(t, j, b));
    if j < k {
        lemma_utf8_len_take_strict(t, j, k);
    } else if k < j {
        lemma_utf8_len_take_strict(t, k, j);
    }
}

/// Width of `c` in bytes.
pub fn width_of(c: char) -> (w: usize)
    ensures
        w == char_width(c),
{
    let u = c as u32;
    if u < 0x80 {
        1
    } else if u < 0x800 {
        2
    } else if u < 0x10000 {
        3
    } else {
        4
    }
}

/// Whether `c` is an ASCII character.
pub fn char_is_ascii(c: char) -> (r: bool)
    ensures
        r == ('\0' <= c <= '\u{7f}'),
{
    (c as u32) < 0x80
}

/// Relies on `str::chars`: it yields the characters of the string in order.
#[verifier::external_body]
pub(crate) fn chars_of(s: &str) -> (r: Vec<char>)
    ensures
        r@ == s@,
{
    s.chars().collect()
}

/// Relies on `String::push`: appends one character.
#[verifier::external_body]
pub(crate) fn push_char(s: &mut String, c: char)
    ensures
        final(s)@ == old(s)@.push(c),
{
    s.push(c)
}

/// Relies on `str::contains`: true when `needle` occurs in `hay`.
#[verifier::external_body]
pub(crate) fn contains(hay: &str, needle: &str) -> (r: bool)
    ensures
        r == has_substring(hay@, needle@),
{
    hay.contains(needle)
}

/// The byte length of `s`, which the encoding of `s` has.
pub fn byte_len(s: &str) -> (n: usize)
    ensures
        n == utf8_len(s@),
{
    s.as_bytes().len()
}

} // verus!
