use super::{accepts_range, Interface};
use crate::text::{
    byte_len, byte_slice, char_index_of_byte, chars_of, index_at_byte, is_boundary,
    lemma_boundary_unique, lemma_utf8_len_take_step, lemma_utf8_len_take_strict, push_char,
    utf8_len, width_of,
};
use vstd::prelude::*;
use vstd::string::StringExecFns;

verus! {

/// A rewriter that copies the untouched stretches of the original into its
/// output as replacements arrive.
#[derive(Debug)]
pub struct LazyRewriter {
    original: Vec<char>,
    rewritten: String,
    offset: usize,
    index: usize,
}

/// A rewriter that splices each replacement into a full copy of the text
/// at once. It costs time in proportion to the text for every replacement,
/// and serves to check the lazy strategy.
pub struct EagerRewriter {
    rewritten: String,
    delta: i128,
    original: Ghost<Seq<char>>,
    cursor: Ghost<int>,
    written: Ghost<Seq<char>>,
}

/// Walks `t` from character index `i` (byte offset `off`) to the character
/// at byte offset `target`, appending what it passes to `out` when `keep`
/// holds. Returns the character index reached.
fn advance_to_byte(
    t: &Vec<char>,
    i: usize,
    off: usize,
    target: usize,
    out: &mut String,
    keep: bool,
) -> (r: usize)
    requires
        index_at_byte(t@, i as int, off as int),
        off <= target,
        is_boundary(t@, target as int),
    ensures
        index_at_byte(t@, r as int, target as int),
        r == char_index_of_byte(t@, target as int),
        i <= r,
        final(out)@ == if keep {
            old(out)@ + t@.subrange(i as int, r as int)
        } else {
            old(out)@
        },
{
    let ghost k = char_index_of_byte(t@, target as int);
    let ghost i0 = i;
    proof {
        assert(index_at_byte(t@, k, target as int));
        if k < i {
            lemma_utf8_len_take_strict(t@, k, i as int);
        }
    }
    let n = t.len();
    let mut i = i;
    let mut off = off;
    while off < target
        invariant
            n == t@.len(),
            i0 <= i <= k <= t@.len(),
            index_at_byte(t@, i as int, off as int),
            index_at_byte(t@, k, target as int),
            out@ == if keep {
                old(out)@ + t@.subrange(i0 as int, i as int)
            } else {
                old(out)@
            },
        decreases k - i,
    {
        proof {
            if i == k {
                assert(false);
            }
            lemma_utf8_len_take_step(t@, i as int);
            lemma_utf8_len_take_strict(t@, i + 1, k);
        }
        if keep {
            push_char(out, t[i]);
            proof {
                assert(t@.subrange(i0 as int, i + 1) =~= t@.subrange(i0 as int, i as int).push(
                    t@[i as int],
                ));
            }
        }
        off = off + width_of(t[i]);
        i = i + 1;
    }
    proof {
        if i < k {
            lemma_utf8_len_take_strict(t@, i as int, k);
        }
        lemma_boundary_unique(t@, k, target as int);
    }
    i
}

/// Appends the characters of `t` from index `i` on to `out`.
fn append_rest(t: &Vec<char>, i: usize, out: &mut String)
    requires
        i <= t@.len(),
    ensures
        final(out)@ == old(out)@ + t@.skip(i as int),
{
    let ghost i0 = i;
    let mut i = i;
    while i < t.len()
        invariant
            i0 <= i <= t@.len(),
            out@ == old(out)@ + t@.subrange(i0 as int, i as int),
        decreases t@.len() - i,
    {
        push_char(out, t[i]);
        proof {
            assert(t@.subrange(i0 as int, i + 1) =~= t@.subrange(i0 as int, i as int).push(
                t@[i as int],
            ));
        }
        i = i + 1;
    }
    proof {
        assert(t@.subrange(i0 as int, i as int) =~= t@.skip(i0 as int));
    }
}

impl LazyRewriter {
    /// A rewriter of `original` that has consumed nothing yet.
    pub fn new(original: &str) -> (r: Self)
        ensures
            r.wf(),
            r.original() == original@,
            r.cursor() == 0,
            r.written() == Seq::<char>::empty(),
    {
        let chars = chars_of(original);
        // The text's byte length fits in `usize`, and so does every offset.
        let _n = byte_len(original);
        proof {
            assert(chars@.take(0) =~= Seq::<char>::empty());
            assert(vstd::utf8::encode_utf8(Seq::<char>::empty()) =~= Seq::<u8>::empty());
        }
        LazyRewriter { original: chars, rewritten: String::new(), offset: 0, index: 0 }
    }
}

proof fn lemma_empty_prefix(t: Seq<char>)
    ensures
        index_at_byte(t, 0, 0),
{
    assert(t.take(0) =~= Seq::<char>::empty());
    assert(vstd::utf8::encode_utf8(Seq::<char>::empty()) =~= Seq::<u8>::empty());
}

impl EagerRewriter {
    /// A rewriter of `original` that has consumed nothing yet.
    pub fn new(original: &str) -> (r: Self)
        ensures
            r.wf(),
            r.original() == original@,
            r.cursor() == 0,
            r.written() == Seq::<char>::empty(),
    {
        // The text's byte length fits in `usize`, and so does every offset.
        let _n = byte_len(original);
        proof {
            lemma_empty_prefix(original@);
            lemma_boundary_unique(original@, 0, 0);
            assert(Seq::<char>::empty() + original@.skip(0) =~= original@);
            assert(vstd::utf8::encode_utf8(Seq::<char>::empty()) =~= Seq::<u8>::empty());
        }
        EagerRewriter {
            rewritten: String::from_str(original),
            delta: 0,
            original: Ghost(original@),
            cursor: Ghost(0),
            written: Ghost(Seq::empty()),
        }
    }
}

impl Interface for EagerRewriter {
    closed spec fn original(&self) -> Seq<char> {
        self.original@
    }

    closed spec fn cursor(&self) -> int {
        self.cursor@
    }

    closed spec fn written(&self) -> Seq<char> {
        self.written@
    }

    closed spec fn wf(&self) -> bool {
        let t = self.original@;
        &&& utf8_len(t) <= usize::MAX
        &&& 0 <= self.cursor@
        &&& is_boundary(t, self.cursor@)
        &&& self.rewritten@ == self.written@ + t.skip(char_index_of_byte(t, self.cursor@))
        &&& self.delta == utf8_len(self.written@) - self.cursor@
    }

    fn contents(self) -> (r: String) {
        self.rewritten
    }

    fn rewrite(&mut self, start: usize, end: usize, replacement: &str) {
        let ghost t = self.original@;
        let ghost w = self.written@;
        let ghost r0 = self.rewritten@;
        let ghost kc = char_index_of_byte(t, self.cursor@);
        let ghost ks = char_index_of_byte(t, start as int);
        let ghost ke = char_index_of_byte(t, end as int);
        let ghost n = t.len() as int;
        proof {
            assert(index_at_byte(t, kc, self.cursor@));
            assert(index_at_byte(t, ks, start as int));
            assert(index_at_byte(t, ke, end as int));
            if ks < kc {
                lemma_utf8_len_take_strict(t, ks, kc);
            }
            if ke < ks {
                lemma_utf8_len_take_strict(t, ke, ks);
            }
            lemma_utf8_len_take_strict(t, kc, ks);
            lemma_utf8_len_take_strict(t, kc, ke);
            lemma_utf8_len_take_strict(t, ke, n);
            assert(t.take(n) =~= t);
            let ps = w + t.subrange(kc, ks);
            let pe = w + t.subrange(kc, ke);
            assert(r0.take(w.len() + (ks - kc)) =~= ps);
            assert(r0.take(w.len() + (ke - kc)) =~= pe);
            crate::text::lemma_utf8_len_concat(w, t.subrange(kc, ks));
            crate::text::lemma_utf8_len_concat(w, t.subrange(kc, ke));
            crate::text::lemma_utf8_len_concat(w, t.skip(kc));
            assert(t.skip(kc) =~= t.subrange(kc, n));
            lemma_boundary_unique(r0, w.len() + (ks - kc), utf8_len(w) + (start - self.cursor@));
            lemma_boundary_unique(r0, w.len() + (ke - kc), utf8_len(w) + (end - self.cursor@));
            lemma_empty_prefix(r0);
        }
        // The copy's byte length fits in `usize`, and so do the shifted offsets.
        let _n = byte_len(self.rewritten.as_str());
        proof {
            lemma_utf8_len_take_strict(r0, w.len() + (ke - kc), r0.len() as int);
            assert(r0.take(r0.len() as int) =~= r0);
        }
        let s2 = (start as i128 + self.delta) as usize;
        let e2 = (end as i128 + self.delta) as usize;
        let chars = chars_of(self.rewritten.as_str());
        let mut out = String::new();
        let i = advance_to_byte(&chars, 0, 0, s2, &mut out, true);
        out.append(replacement);
        // The replaced characters are skipped, not kept.
        let mut scratch = String::new();
        let j = advance_to_byte(&chars, i, s2, e2, &mut scratch, false);
        append_rest(&chars, j, &mut out);
        let ghost w2 = w + t.subrange(kc, ks) + replacement@;
        proof {
            assert(r0.subrange(0, i as int) =~= t.subrange(kc, ks).take(0) + w + t.subrange(kc, ks));
            assert(r0.skip(j as int) =~= t.skip(ke));
            assert(out@ =~= w2 + t.skip(ke));
            crate::text::lemma_utf8_len_concat(w, t.subrange(kc, ks));
            crate::text::lemma_utf8_len_concat(w + t.subrange(kc, ks), replacement@);
            crate::text::lemma_utf8_len_concat(w2, t.skip(ke));
            assert(t.skip(ke) =~= t.subrange(ke, n));
        }
        let rl = byte_len(replacement);
        self.delta = self.delta + (start as i128 - end as i128) + rl as i128;
        self.rewritten = out;
        self.cursor = Ghost(end as int);
        self.written = Ghost(w2);
        proof {
            lemma_boundary_unique(t, ke, end as int);
        }
    }
}

impl Interface for LazyRewriter {
    closed spec fn original(&self) -> Seq<char> {
        self.original@
    }

    closed spec fn cursor(&self) -> int {
        self.offset as int
    }

    closed spec fn written(&self) -> Seq<char> {
        self.rewritten@
    }

    closed spec fn wf(&self) -> bool {
        &&& index_at_byte(self.original@, self.index as int, self.offset as int)
        &&& utf8_len(self.original@) <= usize::MAX
    }

    fn contents(self) -> (r: String) {
        let mut rewritten = self.rewritten;
        proof {
            lemma_boundary_unique(self.original@, self.index as int, self.offset as int);
        }
        append_rest(&self.original, self.index, &mut rewritten);
        rewritten
    }

    fn rewrite(&mut self, start: usize, end: usize, replacement: &str) {
        proof {
            lemma_boundary_unique(self.original@, self.index as int, self.offset as int);
        }
        let i = advance_to_byte(
            &self.original,
            self.index,
            self.offset,
            start,
            &mut self.rewritten,
            true,
        );
        self.rewritten.append(replacement);
        // The replaced characters are skipped, not kept.
        let mut scratch = String::new();
        let j = advance_to_byte(&self.original, i, start, end, &mut scratch, false);
        self.offset = end;
        self.index = j;
    }
}

} // verus!
