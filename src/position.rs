//! Line/column positions and spans, as a parser reports them.

use vstd::prelude::*;

verus! {

/// A position in source text: `line` counts from 1, `column` counts
/// characters (not bytes) from 0.
#[derive(Clone, Copy, Debug, PartialEq, Eq, Structural)]
pub struct LineColumn {
    pub line: usize,
    pub column: usize,
}

/// A region of source text between two positions.
#[derive(Clone, Copy, Debug, PartialEq, Eq, Structural)]
pub struct Span {
    pub start: LineColumn,
    pub end: LineColumn,
}

/// Positions are ordered by line, then by column.
pub open spec fn lc_le(a: LineColumn, b: LineColumn) -> bool {
    a.line < b.line || (a.line == b.line && a.column <= b.column)
}

impl LineColumn {
    /// Whether `self` comes no later than `other`.
    pub fn le(&self, other: &LineColumn) -> (r: bool)
        ensures
            r == lc_le(*self, *other),
    {
        self.line < other.line || (self.line == other.line && self.column <= other.column)
    }
}

} // verus!
