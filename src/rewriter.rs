//! Replacement of spans, given as line/column positions, in an original text.

use crate::offset_based_rewriter::{self, OffsetBasedRewriter};
use crate::offset_calculator::{
    self, char_index, count_line_breaks, has_line, lemma_char_index_bounds,
    lemma_offset_monotone, offset_of, CachingOffsetCalculator,
};
use crate::position::{lc_le, LineColumn, Span};
use crate::text::{chars_of, lemma_boundary_unique, utf8_len};
use vstd::prelude::*;

verus! {

/// A span may be replaced after one that ended at `last`: it starts no
/// earlier, ends no earlier than it starts, and lies on lines the text has.
pub open spec fn span_fits(t: Seq<char>, last: LineColumn, span: Span) -> bool {
    &&& lc_le(last, span.start)
    &&& lc_le(span.start, span.end)
    &&& has_line(t, span.start.line as nat)
    &&& has_line(t, span.end.line as nat)
}

/// Rewrites an original text span by span, in order.
pub struct Rewriter {
    line_column: LineColumn,
    offset_calculator: CachingOffsetCalculator,
    offset_based_rewriter: OffsetBasedRewriter,
    line_breaks: usize,
}

impl Rewriter {
    /// The text being rewritten.
    pub closed spec fn original(&self) -> Seq<char> {
        offset_calculator::Interface::text(&self.offset_calculator)
    }

    /// The end of the last span replaced (the start of the text at first).
    pub closed spec fn last(&self) -> LineColumn {
        self.line_column
    }

    /// What the text before `last()` has become.
    pub closed spec fn written(&self) -> Seq<char> {
        offset_based_rewriter::Interface::written(&self.offset_based_rewriter)
    }

    /// The rewriter's internal consistency.
    pub closed spec fn wf(&self) -> bool {
        let t = self.original();
        &&& offset_calculator::Interface::wf(&self.offset_calculator)
        &&& offset_based_rewriter::Interface::wf(&self.offset_based_rewriter)
        &&& offset_based_rewriter::Interface::original(&self.offset_based_rewriter) == t
        &&& has_line(t, self.line_column.line as nat)
        &&& offset_based_rewriter::Interface::cursor(&self.offset_based_rewriter) == offset_of(
            t,
            self.line_column,
        ).0
        &&& forall|lc: LineColumn|
            lc_le(self.line_column, lc) ==> #[trigger] offset_calculator::Interface::accepts(
                &self.offset_calculator,
                lc,
            )
        &&& forall|line: nat| has_line(t, line) <==> 1 <= line <= self.line_breaks + 1
    }

    /// A rewriter of `original` that has replaced nothing yet.
    pub fn new(original: &str) -> (r: Self)
        ensures
            r.wf(),
            r.original() == original@,
            r.last() == (LineColumn { line: 1, column: 0 }),
            r.written() == Seq::<char>::empty(),
    {
        let chars = chars_of(original);
        let line_breaks = count_line_breaks(&chars);
        let offset_calculator = CachingOffsetCalculator::new(original);
        let offset_based_rewriter = OffsetBasedRewriter::new(original);
        let r = Rewriter {
            line_column: LineColumn { line: 1, column: 0 },
            offset_calculator,
            offset_based_rewriter,
            line_breaks,
        };
        proof {
            let t = original@;
            assert(has_line(t, 1));
            lemma_char_index_bounds(t, r.line_column);
            assert(t.take(0) =~= Seq::<char>::empty());
            assert(vstd::utf8::encode_utf8(Seq::<char>::empty()) =~= Seq::<u8>::empty());
        }
        r
    }

    /// Whether `span` may be replaced next.
    pub fn accepts(&self, span: &Span) -> (r: bool)
        requires
            self.wf(),
        ensures
            r == span_fits(self.original(), self.last(), *span),
    {
        self.line_column.le(&span.start) && span.start.le(&span.end) && span.start.line >= 1
            && span.start.line - 1 <= self.line_breaks && span.end.line >= 1 && span.end.line - 1
            <= self.line_breaks
    }

    /// The rewritten text: what was written, then the rest of the original.
    pub fn contents(self) -> (r: String)
        requires
            self.wf(),
        ensures
            r@ == self.written() + self.original().skip(char_index(self.original(), self.last())),
    {
        let ghost t = self.original();
        proof {
            lemma_char_index_bounds(t, self.line_column);
            lemma_boundary_unique(t, char_index(t, self.line_column), offset_of(t, self.line_column).0 as int);
        }
        offset_based_rewriter::Interface::contents(self.offset_based_rewriter)
    }

    /// Replaces the text of `span` with `replacement`.
    pub fn rewrite(&mut self, span: Span, replacement: &str)
        requires
            old(self).wf(),
            span_fits(old(self).original(), old(self).last(), span),
        ensures
            final(self).wf(),
            final(self).original() == old(self).original(),
            final(self).last() == span.end,
            final(self).written() == old(self).written() + old(self).original().subrange(
                char_index(old(self).original(), old(self).last()),
                char_index(old(self).original(), span.start),
            ) + replacement@,
    {
        let ghost t = self.original();
        let ghost last = self.line_column;
        let (start, end) = self.offsets_from_span(span);
        proof {
            lemma_offset_monotone(t, last, span.start);
            lemma_offset_monotone(t, span.start, span.end);
            lemma_char_index_bounds(t, last);
            lemma_char_index_bounds(t, span.start);
            lemma_char_index_bounds(t, span.end);
            lemma_boundary_unique(t, char_index(t, last), offset_of(t, last).0 as int);
            lemma_boundary_unique(t, char_index(t, span.start), start as int);
            lemma_boundary_unique(t, char_index(t, span.end), end as int);
        }
        offset_based_rewriter::Interface::rewrite(
            &mut self.offset_based_rewriter,
            start,
            end,
            replacement,
        );
        self.line_column = span.end;
    }

    /// Byte offsets of the two ends of `span`.
    fn offsets_from_span(&mut self, span: Span) -> (r: (usize, usize))
        requires
            old(self).wf(),
            span_fits(old(self).original(), old(self).last(), span),
        ensures
            final(self).original() == old(self).original(),
            final(self).line_column == old(self).line_column,
            final(self).line_breaks == old(self).line_breaks,
            final(self).offset_based_rewriter == old(self).offset_based_rewriter,
            offset_calculator::Interface::wf(&final(self).offset_calculator),
            forall|lc: LineColumn|
                lc_le(span.end, lc) ==> #[trigger] offset_calculator::Interface::accepts(
                    &final(self).offset_calculator,
                    lc,
                ),
            r.0 == offset_of(old(self).original(), span.start).0,
            r.1 == offset_of(old(self).original(), span.end).0,
    {
        let ghost t = self.original();
        proof {
            assert(offset_calculator::Interface::accepts(&self.offset_calculator, span.start));
        }
        let (start, start_ascii) = offset_calculator::Interface::offset_from_line_column(
            &mut self.offset_calculator,
            span.start,
        );
        let (end, end_ascii) = offset_calculator::Interface::offset_from_line_column(
            &mut self.offset_calculator,
            span.end,
        );
        proof {
            lemma_offset_monotone(t, span.start, span.end);
            assert(!end_ascii || start_ascii);
        }
        (start, end)
    }
}

} // verus!
