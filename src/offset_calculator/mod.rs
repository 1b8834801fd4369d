//! Conversion of line/column positions into byte offsets.
//!
//! Lines are separated by `'\n'`. A position's column counts characters
//! within its line; a column past the end of the line stands for the end of
//! the line.

mod impls;

pub use impls::{count_line_breaks, CachingOffsetCalculator, StatelessOffsetCalculator};

use crate::position::{lc_le, LineColumn};
use crate::text::{lemma_utf8_len_ascii, lemma_utf8_len_take_strict, utf8_len};
use vstd::prelude::*;
use vstd::utf8::is_ascii_chars;

verus! {

/// Index of the line terminator that ends the line containing index `i`, or
/// the length of `t` when that line is the last.
pub open spec fn line_end(t: Seq<char>, i: int) -> int
    decreases t.len() - i,
{
    if i >= t.len() {
        t.len() as int
    } else if i < 0 {
        0
    } else if t[i] == '\n' {
        i
    } else {
        line_end(t, i + 1)
    }
}

/// Character index at which line `line` (counting from 1) begins.
pub open spec fn line_start(t: Seq<char>, line: nat) -> int
    decreases line,
{
    if line <= 1 {
        0
    } else {
        line_end(t, line_start(t, (line - 1) as nat)) + 1
    }
}

/// `t` has a line numbered `line`.
pub open spec fn has_line(t: Seq<char>, line: nat) -> bool {
    1 <= line && line_start(t, line) <= t.len()
}

/// Character index that position `lc` denotes in `t`.
pub open spec fn char_index(t: Seq<char>, lc: LineColumn) -> int {
    let s = line_start(t, lc.line as nat);
    let e = line_end(t, s);
    if s + lc.column <= e {
        s + lc.column
    } else {
        e
    }
}

/// Byte offset of `lc` in `t`, and whether all text before it is ASCII.
pub open spec fn offset_of(t: Seq<char>, lc: LineColumn) -> (nat, bool) {
    let k = char_index(t, lc);
    (utf8_len(t.take(k)), is_ascii_chars(t.take(k)))
}

/// A line ends no earlier than it starts, and no later than the text.
pub proof fn lemma_line_end_bounds(t: Seq<char>, i: int)
    requires
        0 <= i <= t.len(),
    ensures
        i <= line_end(t, i) <= t.len(),
        line_end(t, i) < t.len() ==> t[line_end(t, i)] == '\n',
        forall|j: int| i <= j < line_end(t, i) ==> t[j] != '\n',
    decreases t.len() - i,
{
    if i < t.len() && t[i] != '\n' {
        lemma_line_end_bounds(t, i + 1);
    }
}

/// Any index inside a line leads to the same line end.
pub proof fn lemma_line_end_mid(t: Seq<char>, a: int, j: int)
    requires
        0 <= a <= j <= line_end(t, a),
        a <= t.len(),
    ensures
        line_end(t, j) == line_end(t, a),
    decreases j - a,
{
    if a < j {
        lemma_line_end_bounds(t, a);
        lemma_line_end_mid(t, a + 1, j);
    }
}

/// Lines are numbered without gaps: a text with line `n` has every line
/// before it, and each one begins where the previous one ended.
pub proof fn lemma_has_line_prev(t: Seq<char>, line: nat)
    requires
        has_line(t, line),
        line > 1,
    ensures
        has_line(t, (line - 1) as nat),
        line_end(t, line_start(t, (line - 1) as nat)) < t.len(),
        line_start(t, line) == line_end(t, line_start(t, (line - 1) as nat)) + 1,
{
    let p = line_start(t, (line - 1) as nat);
    lemma_line_start_nonneg(t, (line - 1) as nat);
    if p > t.len() {
        assert(line_end(t, p) == t.len());
    } else {
        lemma_line_end_bounds(t, p);
    }
}

/// Line starts are never negative.
pub proof fn lemma_line_start_nonneg(t: Seq<char>, line: nat)
    ensures
        line_start(t, line) >= 0,
    decreases line,
{
    if line > 1 {
        lemma_line_start_nonneg(t, (line - 1) as nat);
        let p = line_start(t, (line - 1) as nat);
        if p <= t.len() {
            lemma_line_end_bounds(t, p);
        }
    }
}

/// Every line before an existing line exists.
pub proof fn lemma_has_line_down(t: Seq<char>, a: nat, b: nat)
    requires
        has_line(t, b),
        1 <= a <= b,
    ensures
        has_line(t, a),
        line_start(t, a) <= line_start(t, b),
    decreases b - a,
{
    if a < b {
        lemma_has_line_prev(t, b);
        lemma_has_line_down(t, a, (b - 1) as nat);
        lemma_line_start_nonneg(t, (b - 1) as nat);
        lemma_line_end_bounds(t, line_start(t, (b - 1) as nat));
    }
}

/// A position within an existing line denotes an index inside that line.
pub proof fn lemma_char_index_bounds(t: Seq<char>, lc: LineColumn)
    requires
        has_line(t, lc.line as nat),
    ensures
        0 <= line_start(t, lc.line as nat) <= char_index(t, lc) <= line_end(
            t,
            line_start(t, lc.line as nat),
        ) <= t.len(),
{
    lemma_line_start_nonneg(t, lc.line as nat);
    lemma_line_end_bounds(t, line_start(t, lc.line as nat));
}

/// Later positions denote later (or equal) character indexes.
pub proof fn lemma_char_index_monotone(t: Seq<char>, a: LineColumn, b: LineColumn)
    requires
        has_line(t, a.line as nat),
        has_line(t, b.line as nat),
        lc_le(a, b),
    ensures
        char_index(t, a) <= char_index(t, b),
{
    lemma_char_index_bounds(t, a);
    lemma_char_index_bounds(t, b);
    if a.line < b.line {
        lemma_has_line_down(t, (a.line + 1) as nat, b.line as nat);
        lemma_has_line_prev(t, (a.line + 1) as nat);
    }
}

/// Queried in non-decreasing order, positions give non-decreasing byte
/// offsets; and text that is ASCII up to the later position is ASCII up to
/// the earlier one.
pub proof fn lemma_offset_monotone(t: Seq<char>, a: LineColumn, b: LineColumn)
    requires
        has_line(t, a.line as nat),
        has_line(t, b.line as nat),
        lc_le(a, b),
    ensures
        offset_of(t, a).0 <= offset_of(t, b).0,
        offset_of(t, b).1 ==> offset_of(t, a).1,
{
    lemma_char_index_monotone(t, a, b);
    lemma_char_index_bounds(t, a);
    lemma_char_index_bounds(t, b);
    lemma_utf8_len_take_strict(t, char_index(t, a), char_index(t, b));
    let ka = char_index(t, a);
    let kb = char_index(t, b);
    if offset_of(t, b).1 {
        assert forall|i: int| 0 <= i < t.take(ka).len() implies '\0' <= #[trigger] t.take(ka)[i]
            <= '\u{7f}' by {
            assert(t.take(ka)[i] == t.take(kb)[i]);
        }
    }
}

/// Where all text before a position is ASCII, its byte offset equals its
/// character index.
pub proof fn lemma_ascii_offset_is_char_index(t: Seq<char>, lc: LineColumn)
    requires
        has_line(t, lc.line as nat),
        offset_of(t, lc).1,
    ensures
        offset_of(t, lc).0 == char_index(t, lc),
{
    lemma_char_index_bounds(t, lc);
    let k = char_index(t, lc);
    assert(t.take(k).len() == k);
    lemma_utf8_len_ascii(t.take(k));
}

/// Conversion from positions to byte offsets.
pub trait Interface {
    /// The text that offsets are computed in.
    spec fn text(&self) -> Seq<char>;

    /// The calculator's internal consistency.
    spec fn wf(&self) -> bool;

    /// Whether `lc` may be queried next.
    spec fn accepts(&self, lc: LineColumn) -> bool;

    /// Byte offset of `lc`, and whether all text before it is ASCII.
    fn offset_from_line_column(&mut self, line_column: LineColumn) -> (r: (usize, bool))
        requires
            old(self).wf(),
            has_line(old(self).text(), line_column.line as nat),
            old(self).accepts(line_column),
        ensures
            final(self).wf(),
            final(self).text() == old(self).text(),
            r.0 == offset_of(old(self).text(), line_column).0,
            r.1 == offset_of(old(self).text(), line_column).1,
            forall|next: LineColumn|
                lc_le(line_column, next) ==> #[trigger] final(self).accepts(next),
    ;
}

} // verus!
