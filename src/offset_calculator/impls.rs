use super::{
    char_index, has_line, lemma_char_index_bounds, lemma_char_index_monotone,
    lemma_has_line_down, lemma_has_line_prev, lemma_line_end_bounds, lemma_line_end_mid,
    lemma_line_start_nonneg, line_end, line_start, offset_of, Interface,
};
use crate::position::{lc_le, LineColumn};
use crate::text::{byte_len, char_is_ascii, chars_of, lemma_utf8_len_take_step, lemma_utf8_len_take_strict, utf8_len, width_of};
use vstd::prelude::*;
use vstd::utf8::is_ascii_chars;

verus! {

/// A calculator that remembers where the previous query ended, so that
/// queries in non-decreasing order cost time proportional to the distance
/// between them.
#[derive(Debug)]
pub struct CachingOffsetCalculator {
    chars: Vec<char>,
    line_column: LineColumn,
    line_begin: usize,
    index: usize,
    offset: usize,
    ascii: bool,
}

/// A calculator that scans from the start of the text on every query.
#[derive(Debug)]
pub struct StatelessOffsetCalculator {
    original: Vec<char>,
}

/// What a scan from index `i` (byte offset `off`, ASCII so far `ascii`) keeps.
pub open spec fn scan_state(t: Seq<char>, i: int, off: int, ascii: bool) -> bool {
    &&& 0 <= i <= t.len()
    &&& off == utf8_len(t.take(i))
    &&& ascii == is_ascii_chars(t.take(i))
    &&& utf8_len(t) <= usize::MAX
}

proof fn lemma_scan_step(t: Seq<char>, i: int, off: int, ascii: bool)
    requires
        scan_state(t, i, off, ascii),
        i < t.len(),
    ensures
        scan_state(
            t,
            i + 1,
            off + crate::text::char_width(t[i]),
            ascii && ('\0' <= t[i] <= '\u{7f}'),
        ),
        off + crate::text::char_width(t[i]) <= usize::MAX,
{
    lemma_utf8_len_take_step(t, i);
    lemma_utf8_len_take_strict(t, i + 1, t.len() as int);
    assert(t.take(t.len() as int) =~= t);
    let a = t.take(i);
    let b = t.take(i + 1);
    assert(b =~= a.push(t[i]));
    if is_ascii_chars(b) {
        assert forall|k: int| 0 <= k < a.len() implies '\0' <= #[trigger] a[k] <= '\u{7f}' by {
            assert(a[k] == b[k]);
        }
        assert(b[i] == t[i]);
    }
    if is_ascii_chars(a) && '\0' <= t[i] <= '\u{7f}' {
        assert forall|k: int| 0 <= k < b.len() implies '\0' <= #[trigger] b[k] <= '\u{7f}' by {
            if k < i {
                assert(b[k] == a[k]);
            }
        }
    }
}

/// Advances over the characters of one line, from index `i` up to
/// `limit` characters past `line_begin` or the end of the line, whichever
/// comes first.
fn scan_line(
    t: &Vec<char>,
    line_begin: usize,
    limit: usize,
    i: usize,
    off: usize,
    ascii: bool,
) -> (r: (usize, usize, bool))
    requires
        scan_state(t@, i as int, off as int, ascii),
        line_begin <= i <= line_end(t@, line_begin as int),
        line_end(t@, i as int) == line_end(t@, line_begin as int),
        i <= line_begin + limit,
    ensures
        scan_state(t@, r.0 as int, r.1 as int, r.2),
        r.0 == if line_begin + limit <= line_end(t@, line_begin as int) {
            line_begin + limit
        } else {
            line_end(t@, line_begin as int)
        },
{
    let ghost e = line_end(t@, line_begin as int);
    proof {
        lemma_line_end_bounds(t@, i as int);
    }
    let mut i = i;
    let mut off = off;
    let mut ascii = ascii;
    while i < t.len() && t[i] != '\n' && i - line_begin < limit
        invariant
            scan_state(t@, i as int, off as int, ascii),
            line_begin <= i <= e,
            e == line_end(t@, line_begin as int),
            line_end(t@, i as int) == e,
            i <= line_begin + limit,
            e <= t@.len(),
        decreases t@.len() - i,
    {
        proof {
            lemma_scan_step(t@, i as int, off as int, ascii);
            lemma_line_end_bounds(t@, i as int + 1);
        }
        off = off + width_of(t[i]);
        ascii = ascii && char_is_ascii(t[i]);
        i = i + 1;
    }
    (i, off, ascii)
}

/// Advances from a position inside line `line` to the start of line `target`.
fn scan_lines(
    t: &Vec<char>,
    line: usize,
    target: usize,
    line_begin: usize,
    i: usize,
    off: usize,
    ascii: bool,
) -> (r: (usize, usize, bool))
    requires
        scan_state(t@, i as int, off as int, ascii),
        1 <= line <= target,
        has_line(t@, target as nat),
        line_begin == line_start(t@, line as nat),
        line_begin <= i <= line_end(t@, line_begin as int),
    ensures
        scan_state(t@, r.0 as int, r.1 as int, r.2),
        r.0 == if line < target {
            line_start(t@, target as nat)
        } else {
            i as int
        },
{
    let ghost l0 = line;
    let ghost i0 = i;
    let mut line = line;
    let mut line_begin = line_begin;
    let mut i = i;
    let mut off = off;
    let mut ascii = ascii;
    proof {
        lemma_line_end_mid(t@, line_begin as int, i as int);
    }
    while line < target
        invariant
            scan_state(t@, i as int, off as int, ascii),
            1 <= line <= target,
            has_line(t@, target as nat),
            line_begin == line_start(t@, line as nat),
            line_begin <= i <= line_end(t@, line_begin as int),
            line_end(t@, i as int) == line_end(t@, line_begin as int),
            line == l0 ==> i == i0,
            line > l0 ==> i == line_begin,
            l0 <= line,
        decreases target - line,
    {
        let (j, o, a) = scan_line(t, line_begin, t.len(), i, off, ascii);
        proof {
            lemma_has_line_down(t@, (line + 1) as nat, target as nat);
            lemma_has_line_prev(t@, (line + 1) as nat);
            lemma_line_end_bounds(t@, line_begin as int);
            lemma_scan_step(t@, j as int, o as int, a);
        }
        off = o + 1;
        ascii = a;
        i = j + 1;
        line = line + 1;
        line_begin = i;
        proof {
            lemma_line_start_nonneg(t@, line as nat);
            lemma_line_end_bounds(t@, line_begin as int);
        }
    }
    (i, off, ascii)
}

/// Number of line terminators in `t`: the text has lines `1` through one
/// more than this.
pub fn count_line_breaks(t: &Vec<char>) -> (n: usize)
    ensures
        forall|line: nat| has_line(t@, line) <==> 1 <= line <= n + 1,
{
    let len = t.len();
    let mut n: usize = 0;
    let mut i: usize = 0;
    proof {
        lemma_line_end_bounds(t@, 0);
    }
    loop
        invariant
            len == t@.len(),
            i == line_start(t@, (n + 1) as nat),
            n <= i <= len,
            has_line(t@, (n + 1) as nat),
            forall|line: nat| 1 <= line <= n + 1 ==> has_line(t@, line),
        decreases len - i,
    {
        proof {
            lemma_line_end_bounds(t@, i as int);
        }
        let mut j = i;
        while j < len && t[j] != '\n'
            invariant
                len == t@.len(),
                i <= j <= line_end(t@, i as int),
                line_end(t@, j as int) == line_end(t@, i as int),
            decreases len - j,
        {
            proof {
                lemma_line_end_bounds(t@, j as int + 1);
            }
            j = j + 1;
        }
        if j == len {
            proof {
                assert forall|line: nat| has_line(t@, line) implies 1 <= line <= n + 1 by {
                    if line > n + 1 {
                        lemma_has_line_down(t@, (n + 2) as nat, line);
                    }
                }
            }
            return n;
        }
        n = n + 1;
        i = j + 1;
        proof {
            assert forall|line: nat| 1 <= line <= n + 1 implies has_line(t@, line) by {
                if line <= n {
                    assert(has_line(t@, line));
                }
            }
        }
    }
}

proof fn lemma_scan_start(t: Seq<char>)
    requires
        utf8_len(t) <= usize::MAX,
    ensures
        scan_state(t, 0, 0, true),
        has_line(t, 1),
        line_start(t, 1) == 0,
{
    assert(t.take(0) =~= Seq::<char>::empty());
    assert(crate::text::utf8_len(Seq::<char>::empty()) == 0) by {
        assert(vstd::utf8::encode_utf8(Seq::<char>::empty()) =~= Seq::<u8>::empty());
    }
}

impl CachingOffsetCalculator {
    /// The calculator's consistency: the cached scan stands at the last
    /// position queried.
    pub closed spec fn inv(&self) -> bool {
        let t = self.chars@;
        &&& scan_state(t, self.index as int, self.offset as int, self.ascii)
        &&& has_line(t, self.line_column.line as nat)
        &&& self.line_begin == line_start(t, self.line_column.line as nat)
        &&& self.index == char_index(t, self.line_column)
    }

    /// The last position queried (the start of the text before any query).
    pub closed spec fn last(&self) -> LineColumn {
        self.line_column
    }

    /// A calculator over `original`, positioned at its start.
    pub fn new(original: &str) -> (r: Self)
        ensures
            r.wf(),
            r.text() == original@,
            r.last() == (LineColumn { line: 1, column: 0 }),
            forall|lc: LineColumn| lc.line >= 1 ==> #[trigger] r.accepts(lc),
    {
        let chars = chars_of(original);
        // The text's byte length fits in `usize`, and so does every offset.
        let _n = byte_len(original);
        proof {
            lemma_scan_start(chars@);
            lemma_line_end_bounds(chars@, 0);
        }
        CachingOffsetCalculator {
            chars,
            line_column: LineColumn { line: 1, column: 0 },
            line_begin: 0,
            index: 0,
            offset: 0,
            ascii: true,
        }
    }
}

impl StatelessOffsetCalculator {
    /// A calculator over `original`.
    pub fn new(original: &str) -> (r: Self)
        ensures
            r.wf(),
            r.text() == original@,
            forall|lc: LineColumn| #[trigger] r.accepts(lc),
    {
        let chars = chars_of(original);
        // The text's byte length fits in `usize`, and so does every offset.
        let _n = byte_len(original);
        StatelessOffsetCalculator { original: chars }
    }
}

impl Interface for CachingOffsetCalculator {
    closed spec fn text(&self) -> Seq<char> {
        self.chars@
    }

    closed spec fn wf(&self) -> bool {
        self.inv()
    }

    closed spec fn accepts(&self, lc: LineColumn) -> bool {
        lc_le(self.last(), lc)
    }

    fn offset_from_line_column(&mut self, line_column: LineColumn) -> (r: (usize, bool)) {
        let ghost t = self.chars@;
        proof {
            lemma_char_index_bounds(t, self.line_column);
        }
        let (i, off, ascii) = scan_lines(
            &self.chars,
            self.line_column.line,
            line_column.line,
            self.line_begin,
            self.index,
            self.offset,
            self.ascii,
        );
        let line_begin = if self.line_column.line < line_column.line {
            i
        } else {
            self.line_begin
        };
        proof {
            lemma_char_index_bounds(t, line_column);
            if self.line_column.line == line_column.line {
                lemma_line_end_mid(t, line_begin as int, i as int);
            }
        }
        let (j, o, a) = scan_line(&self.chars, line_begin, line_column.column, i, off, ascii);
        self.line_column = line_column;
        self.line_begin = line_begin;
        self.index = j;
        self.offset = o;
        self.ascii = a;
        (o, a)
    }
}

impl Interface for StatelessOffsetCalculator {
    closed spec fn text(&self) -> Seq<char> {
        self.original@
    }

    closed spec fn wf(&self) -> bool {
        utf8_len(self.original@) <= usize::MAX
    }

    closed spec fn accepts(&self, lc: LineColumn) -> bool {
        true
    }

    fn offset_from_line_column(&mut self, line_column: LineColumn) -> (r: (usize, bool)) {
        let ghost t = self.original@;
        proof {
            lemma_scan_start(t);
            lemma_line_end_bounds(t, 0);
            lemma_char_index_bounds(t, line_column);
        }
        let (i, off, ascii) = scan_lines(&self.original, 1, line_column.line, 0, 0, 0, true);
        proof {
            lemma_line_end_bounds(t, i as int);
        }
        let (j, o, a) = scan_line(&self.original, i, line_column.column, i, off, ascii);
        (o, a)
    }
}

} // verus!
