//! Application of replacements, given as byte ranges of an original text,
//! in one pass over that text.

mod impls;

pub use impls::{EagerRewriter, LazyRewriter};

use crate::text::{byte_slice, char_index_of_byte, is_boundary, utf8_len};
use vstd::prelude::*;

verus! {

/// A rewriter of one original text. Replacements come in order of their
/// ranges, and no range overlaps one before it.
pub trait Interface: Sized {
    /// The text being rewritten.
    spec fn original(&self) -> Seq<char>;

    /// Byte offset in the original up to which the text has been consumed.
    spec fn cursor(&self) -> int;

    /// What the consumed part of the original has become.
    spec fn written(&self) -> Seq<char>;

    /// The rewriter's internal consistency.
    spec fn wf(&self) -> bool;

    /// The rewritten text: the consumed part as rewritten, then the rest
    /// of the original unchanged.
    fn contents(self) -> (r: String)
        requires
            self.wf(),
        ensures
            r@ == self.written() + self.original().skip(
                char_index_of_byte(self.original(), self.cursor()),
            ),
    ;

    /// Replaces the bytes `start..end` of the original with `replacement`.
    fn rewrite(&mut self, start: usize, end: usize, replacement: &str)
        requires
            old(self).wf(),
            accepts_range(old(self).original(), old(self).cursor(), start as int, end as int),
        ensures
            final(self).wf(),
            final(self).original() == old(self).original(),
            final(self).cursor() == end,
            final(self).written() == old(self).written() + byte_slice(
                old(self).original(),
                old(self).cursor(),
                start as int,
            ) + replacement@,
    ;
}

/// A replacement of `start..end` may follow one that ended at `cursor`:
/// it starts no earlier, and both ends fall between characters.
pub open spec fn accepts_range(t: Seq<char>, cursor: int, start: int, end: int) -> bool {
    &&& cursor <= start <= end
    &&& is_boundary(t, start)
    &&& is_boundary(t, end)
}

/// After a replacement that ended at byte `end1` (where `rewrite` leaves
/// the cursor), a replacement that starts before `end1` overlaps it and is
/// refused: `rewrite` does not accept it.
pub proof fn lemma_overlap_refused<R: Interface>(after: R, end1: int, start2: int, end2: int)
    requires
        after.cursor() == end1,
        start2 < end1,
    ensures
        !accepts_range(after.original(), after.cursor(), start2, end2),
{
}

/// The rewriter used on source files: the lazy strategy, optionally
/// shadowed by the eager one. Both strategies meet one contract, so the
/// eager copy always agrees with the lazy result; `contents` states that
/// agreement where it holds.
pub struct OffsetBasedRewriter {
    lazy: LazyRewriter,
    eager: Option<EagerRewriter>,
}

impl OffsetBasedRewriter {
    /// A rewriter of `original` that has consumed nothing yet.
    pub fn new(original: &str) -> (r: Self)
        ensures
            r.wf(),
            r.original() == original@,
            r.cursor() == 0,
            r.written() == Seq::<char>::empty(),
            !r.cross_checked(),
    {
        OffsetBasedRewriter { lazy: LazyRewriter::new(original), eager: None }
    }

    /// A rewriter of `original` that also keeps an eager copy of the text.
    pub fn with_cross_check(original: &str) -> (r: Self)
        ensures
            r.wf(),
            r.original() == original@,
            r.cursor() == 0,
            r.written() == Seq::<char>::empty(),
            r.cross_checked(),
    {
        OffsetBasedRewriter {
            lazy: LazyRewriter::new(original),
            eager: Some(EagerRewriter::new(original)),
        }
    }

    /// Whether the eager copy is kept.
    pub closed spec fn cross_checked(&self) -> bool {
        self.eager is Some
    }
}

impl Interface for OffsetBasedRewriter {
    closed spec fn original(&self) -> Seq<char> {
        self.lazy.original()
    }

    closed spec fn cursor(&self) -> int {
        self.lazy.cursor()
    }

    closed spec fn written(&self) -> Seq<char> {
        self.lazy.written()
    }

    closed spec fn wf(&self) -> bool {
        &&& self.lazy.wf()
        &&& self.eager matches Some(e) ==> {
            &&& e.wf()
            &&& e.original() == self.lazy.original()
            &&& e.cursor() == self.lazy.cursor()
            &&& e.written() == self.lazy.written()
        }
    }

    fn contents(self) -> (r: String) {
        let contents = self.lazy.contents();
        if let Some(eager) = self.eager {
            let comparator = eager.contents();
            proof {
                assert(contents@ == comparator@);
            }
        }
        contents
    }

    fn rewrite(&mut self, start: usize, end: usize, replacement: &str) {
        self.lazy.rewrite(start, end, replacement);
        if let Some(mut eager) = self.eager.take() {
            eager.rewrite(start, end, replacement);
            self.eager = Some(eager);
        }
    }
}

} // verus!
