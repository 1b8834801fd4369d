//! The forward rewrite of `if_chain!` invocations.
//!
//! An invocation
//!
//! ```text
//! if_chain! {
//!     if let Some(x) = y;
//!     let z = x + 1;
//!     if z > 0;
//!     then { f(z) }
//! }
//! ```
//!
//! becomes, for a marker `x0`, nested code that a formatter accepts:
//!
//! ```text
//! fn x0 () {
//!     if let Some(x) = y{ x0 ; }
//!     let z = x + 1;
//!     if z > 0{ x0 ; }
//!     if x0 { f(z) }
//! }
//! ```
//!
//! A clause that binds with `let` keeps its `;`; every other clause's `;`
//! becomes a block that uses the marker.

use crate::marker::{fresh_marker, fresh_marker_of, lemma_fresh_marker_fits, lemma_has_substring_self, marker_fits};
use crate::text::has_substring;
use crate::offset_calculator::char_index;
use crate::position::{LineColumn, Span};
use crate::rewriter::{span_fits, Rewriter};
use vstd::prelude::*;
use vstd::string::StringExecFns;

verus! {

/// The part of a token that the scanner looks at.
#[derive(Debug)]
pub enum TokenKind {
    /// A punctuation character.
    Punct(char),
    /// An identifier or keyword, as written.
    Ident(String),
    /// A literal or a delimited group.
    Other,
}

/// One token of an invocation's body, with where it stands.
#[derive(Debug)]
pub struct Token {
    pub kind: TokenKind,
    pub span: Span,
}

/// A macro invocation found in a file.
#[derive(Debug)]
pub struct MacroCall {
    /// The segments of the macro's path (`["if_chain"]` for `if_chain!`).
    pub path: Vec<String>,
    /// Whether the body is delimited by braces.
    pub brace: bool,
    /// The span from the start of the path to the `!`.
    pub header: Span,
    /// The tokens of the body, without its delimiters.
    pub tokens: Vec<Token>,
    /// Whether the invocation stands as an item or a statement (rather than
    /// an expression).
    pub is_item: bool,
}

/// What a rewrite puts in place of a span.
#[derive(Clone, Copy, Debug, PartialEq, Eq, Structural)]
pub enum InsertionKind {
    /// The invocation's header becomes a function header (for an item or
    /// statement) or a closure's parameter list (for an expression).
    Header(bool),
    /// A clause's `;` becomes a block that uses the marker.
    Statement,
    /// The `then` keyword becomes a test of the marker.
    Condition,
}

/// A place where a rewrite goes, before the marker is known.
#[derive(Clone, Copy, Debug, PartialEq, Eq, Structural)]
pub struct Insertion {
    pub span: Span,
    pub kind: InsertionKind,
}

/// A replacement of a span's text.
#[derive(Debug)]
pub struct Edit {
    pub span: Span,
    pub replacement: String,
}

/// Why a file could not be rewritten.
#[derive(Clone, Copy, Debug, PartialEq, Eq, Structural)]
pub enum RewriteError {
    /// An `if_chain!` invocation has no `then` clause.
    MissingThen,
    /// No candidate marker fits the file.
    NoFreshMarker,
    /// The spans to rewrite are out of order, overlap, or lie outside the
    /// text.
    SpanOutOfOrder,
}

/// An edit as its span and replacement text.
pub type EditView = (Span, Seq<char>);

/// The edits of `v`, as views.
pub open spec fn edits_view(v: Seq<Edit>) -> Seq<EditView> {
    v.map_values(|e: Edit| (e.span, e.replacement@))
}

/// The identifier `t` holds, if it is one.
pub open spec fn ident_of(t: Token) -> Option<Seq<char>> {
    match t.kind {
        TokenKind::Ident(s) => Some(s@),
        _ => None,
    }
}

/// A keyword that opens a clause.
pub open spec fn is_clause_keyword(w: Seq<char>) -> bool {
    w == "if"@ || w == "let"@ || w == "then"@
}

/// Token `i` is a `;` that closes a clause: the next token opens another.
pub open spec fn boundary_at(toks: Seq<Token>, i: int) -> bool {
    &&& 0 <= i
    &&& i + 1 < toks.len()
    &&& toks[i].kind == TokenKind::Punct(';')
    &&& ident_of(toks[i + 1]) matches Some(w)
    &&& is_clause_keyword(w)
}

/// The insertions for the clauses from token `i` on, where `ends_let` says
/// whether the clause open at `i` binds with `let`; `None` if no `then`
/// clause follows.
pub open spec fn scan(toks: Seq<Token>, i: int, ends_let: bool) -> Option<Seq<Insertion>>
    decreases toks.len() - i,
{
    if i < 0 || i >= toks.len() {
        None
    } else if boundary_at(toks, i) {
        let w = ident_of(toks[i + 1])->Some_0;
        let first = if ends_let {
            Seq::<Insertion>::empty()
        } else {
            seq![Insertion { span: toks[i].span, kind: InsertionKind::Statement }]
        };
        if w == "then"@ {
            Some(first.push(Insertion { span: toks[i + 1].span, kind: InsertionKind::Condition }))
        } else {
            match scan(toks, i + 1, w == "let"@) {
                Some(rest) => Some(first + rest),
                None => None,
            }
        }
    } else {
        scan(toks, i + 1, ends_let)
    }
}

/// The body starts with a `let` clause.
pub open spec fn starts_with_let(toks: Seq<Token>) -> bool {
    toks.len() > 0 && ident_of(toks[0]) == Some("let"@)
}

/// The insertions for an invocation body's clauses.
pub open spec fn clause_insertions(toks: Seq<Token>) -> Option<Seq<Insertion>> {
    scan(toks, 0, starts_with_let(toks))
}

/// `call` invokes `if_chain!` with braces.
pub open spec fn is_if_chain(call: MacroCall) -> bool {
    &&& call.path@.len() == 1
    &&& call.path@[0]@ == "if_chain"@
    &&& call.brace
}

/// The text that replaces a span of the given kind, for marker `m`.
pub open spec fn render(kind: InsertionKind, m: Seq<char>) -> Seq<char> {
    match kind {
        InsertionKind::Header(is_item) => if is_item {
            "fn "@ + m + " ()"@
        } else {
            "| "@ + m + " |"@
        },
        InsertionKind::Statement => "{ "@ + m + " ; }"@,
        InsertionKind::Condition => "if "@ + m,
    }
}

/// The edits that insertions make with marker `m`.
pub open spec fn render_all(ins: Seq<Insertion>, m: Seq<char>) -> Seq<EditView> {
    ins.map_values(|x: Insertion| (x.span, render(x.kind, m)))
}

/// The edits for all invocations in `calls`, and the marker of each
/// `if_chain!` among them, each marker chosen beside those before it.
pub open spec fn plan(t: Seq<char>, calls: Seq<MacroCall>, taken: Seq<Seq<char>>) -> Result<
    (Seq<EditView>, Seq<Seq<char>>),
    RewriteError,
>
    decreases calls.len(),
{
    if calls.len() == 0 {
        Ok((Seq::empty(), Seq::empty()))
    } else if !is_if_chain(calls[0]) {
        plan(t, calls.drop_first(), taken)
    } else {
        match clause_insertions(calls[0].tokens@) {
            None => Err(RewriteError::MissingThen),
            Some(ins) => match fresh_marker_of(t, taken) {
                None => Err(RewriteError::NoFreshMarker),
                Some(m) => match plan(t, calls.drop_first(), taken.push(m)) {
                    Err(e) => Err(e),
                    Ok(rest) => Ok(
                        (
                            render_all(
                                seq![
                                    Insertion {
                                        span: calls[0].header,
                                        kind: InsertionKind::Header(calls[0].is_item),
                                    },
                                ] + ins,
                                m,
                            ) + rest.0,
                            seq![m] + rest.1,
                        ),
                    ),
                },
            },
        }
    }
}

/// The start of a text.
pub open spec fn text_start() -> LineColumn {
    LineColumn { line: 1, column: 0 }
}

/// Each edit's span may follow the one before it, the first following `last`.
pub open spec fn edits_valid(t: Seq<char>, last: LineColumn, es: Seq<EditView>) -> bool
    decreases es.len(),
{
    es.len() == 0 || (span_fits(t, last, es[0].0) && edits_valid(t, es[0].0.end, es.drop_first()))
}

/// The text from `last` on, with the edits made.
pub open spec fn apply_edits(t: Seq<char>, last: LineColumn, es: Seq<EditView>) -> Seq<char>
    decreases es.len(),
{
    if es.len() == 0 {
        t.skip(char_index(t, last))
    } else {
        t.subrange(char_index(t, last), char_index(t, es[0].0.start)) + es[0].1 + apply_edits(
            t,
            es[0].0.end,
            es.drop_first(),
        )
    }
}

/// Whether `s` and `w` hold the same characters.
pub(crate) fn word_eq(s: &str, w: &str) -> (r: bool)
    ensures
        r == (s@ == w@),
{
    let n = s.unicode_len();
    if n != w.unicode_len() {
        return false;
    }
    let mut i: usize = 0;
    while i < n
        invariant
            n == s@.len() == w@.len(),
            i <= n,
            s@.take(i as int) == w@.take(i as int),
        decreases n - i,
    {
        if s.get_char(i) != w.get_char(i) {
            return false;
        }
        proof {
            assert(s@.take(i + 1) =~= s@.take(i as int).push(s@[i as int]));
            assert(w@.take(i + 1) =~= w@.take(i as int).push(w@[i as int]));
        }
        i = i + 1;
    }
    proof {
        assert(s@ =~= s@.take(n as int));
        assert(w@ =~= w@.take(n as int));
    }
    true
}

/// Whether token `t` is the identifier `w`.
fn ident_is(t: &Token, w: &str) -> (r: bool)
    ensures
        r == (ident_of(*t) == Some(w@)),
{
    match &t.kind {
        TokenKind::Ident(s) => word_eq(s.as_str(), w),
        _ => false,
    }
}

/// Whether token `i` closes a clause.
fn is_boundary_at(toks: &Vec<Token>, i: usize) -> (r: bool)
    ensures
        r == boundary_at(toks@, i as int),
{
    if i >= toks.len() || i + 1 >= toks.len() {
        return false;
    }
    let semi = match &toks[i].kind {
        TokenKind::Punct(c) => *c == ';',
        _ => false,
    };
    semi && (ident_is(&toks[i + 1], "if") || ident_is(&toks[i + 1], "let") || ident_is(
        &toks[i + 1],
        "then",
    ))
}

/// `acc` followed by the result of a scan, if there is one.
pub open spec fn prepend(acc: Seq<Insertion>, r: Option<Seq<Insertion>>) -> Option<
    Seq<Insertion>,
> {
    match r {
        Some(rest) => Some(acc + rest),
        None => None,
    }
}

/// The places in an invocation body where the marker goes: after each
/// clause that does not bind with `let`, its `;`, and the `then` keyword;
/// `None` if the body has no `then` clause.
pub fn rewrite_tokens(tokens: &Vec<Token>) -> (r: Option<Vec<Insertion>>)
    ensures
        match r {
            Some(v) => clause_insertions(tokens@) == Some(v@),
            None => clause_insertions(tokens@) is None,
        },
{
    let ghost toks = tokens@;
    let mut ends_let = tokens.len() > 0 && ident_is(&tokens[0], "let");
    let mut acc: Vec<Insertion> = Vec::new();
    let mut i: usize = 0;
    while i < tokens.len()
        invariant
            toks == tokens@,
            i <= toks.len(),
            clause_insertions(toks) == prepend(acc@, scan(toks, i as int, ends_let)),
        decreases toks.len() - i,
    {
        if is_boundary_at(tokens, i) {
            let ghost acc0 = acc@;
            let ghost el0 = ends_let;
            let ghost first = if el0 {
                Seq::<Insertion>::empty()
            } else {
                seq![Insertion { span: toks[i as int].span, kind: InsertionKind::Statement }]
            };
            if !ends_let {
                acc.push(Insertion { span: tokens[i].span, kind: InsertionKind::Statement });
            }
            proof {
                assert(acc@ =~= acc0 + first);
            }
            if ident_is(&tokens[i + 1], "then") {
                acc.push(Insertion { span: tokens[i + 1].span, kind: InsertionKind::Condition });
                proof {
                    assert(acc@ =~= acc0 + first.push(
                        Insertion { span: toks[i + 1].span, kind: InsertionKind::Condition },
                    ));
                }
                return Some(acc);
            }
            ends_let = ident_is(&tokens[i + 1], "let");
            proof {
                let rest = scan(toks, i + 1, ends_let);
                assert(scan(toks, i as int, el0) == prepend(first, rest));
                if rest is Some {
                    assert(acc0 + (first + rest->Some_0) =~= (acc0 + first) + rest->Some_0);
                }
            }
        }
        i = i + 1;
    }
    None
}

/// The header span and body tokens of `call` if it invokes `if_chain!`
/// with braces.
pub fn match_if_chain(call: &MacroCall) -> (r: Option<(Span, &Vec<Token>)>)
    ensures
        r is Some <==> is_if_chain(*call),
        r matches Some(p) ==> p.0 == call.header && *p.1 == call.tokens,
{
    if call.brace && call.path.len() == 1 && word_eq(call.path[0].as_str(), "if_chain") {
        Some((call.header, &call.tokens))
    } else {
        None
    }
}

/// The edit that `ins` makes with marker `marker`.
pub fn render_edit(ins: Insertion, marker: &String) -> (r: Edit)
    ensures
        r.span == ins.span,
        r.replacement@ == render(ins.kind, marker@),
{
    let replacement = match ins.kind {
        InsertionKind::Header(is_item) => {
            if is_item {
                let mut s = String::from_str("fn ");
                s.append(marker.as_str());
                s.append(" ()");
                s
            } else {
                let mut s = String::from_str("| ");
                s.append(marker.as_str());
                s.append(" |");
                s
            }
        },
        InsertionKind::Statement => {
            let mut s = String::from_str("{ ");
            s.append(marker.as_str());
            s.append(" ; }");
            s
        },
        InsertionKind::Condition => {
            let mut s = String::from_str("if ");
            s.append(marker.as_str());
            s
        },
    };
    Edit { span: ins.span, replacement }
}

/// The markers of `v`, as views.
pub open spec fn markers_view(v: Seq<String>) -> Seq<Seq<char>> {
    v.map_values(|s: String| s@)
}

/// `es` and `ms` put before what a plan gives, unless it failed.
pub open spec fn prefixed(
    es: Seq<EditView>,
    ms: Seq<Seq<char>>,
    r: Result<(Seq<EditView>, Seq<Seq<char>>), RewriteError>,
) -> Result<(Seq<EditView>, Seq<Seq<char>>), RewriteError> {
    match r {
        Err(e) => Err(e),
        Ok(p) => Ok((es + p.0, ms + p.1)),
    }
}

/// The edits for every `if_chain!` invocation among `calls`, in order,
/// with the marker chosen for each.
pub fn plan_edits(contents: &str, calls: &Vec<MacroCall>) -> (r: Result<
    (Vec<Edit>, Vec<String>),
    RewriteError,
>)
    ensures
        match plan(contents@, calls@, Seq::empty()) {
            Err(e) => r == Err::<(Vec<Edit>, Vec<String>), RewriteError>(e),
            Ok(p) => r matches Ok(q) && edits_view(q.0@) == p.0 && markers_view(q.1@) == p.1,
        },
{
    let ghost t = contents@;
    let ghost all = calls@;
    let mut edits: Vec<Edit> = Vec::new();
    let mut markers: Vec<String> = Vec::new();
    let mut j: usize = 0;
    proof {
        assert(calls@.skip(0) =~= calls@);
        assert(edits_view(edits@) =~= Seq::<EditView>::empty());
        assert(markers_view(markers@) =~= Seq::<Seq<char>>::empty());
        let p = plan(t, all, Seq::empty());
        if p is Ok {
            assert(Seq::<EditView>::empty() + p->Ok_0.0 =~= p->Ok_0.0);
            assert(Seq::<Seq<char>>::empty() + p->Ok_0.1 =~= p->Ok_0.1);
        }
    }
    while j < calls.len()
        invariant
            t == contents@,
            all == calls@,
            j <= all.len(),
            plan(t, all, Seq::empty()) == prefixed(
                edits_view(edits@),
                markers_view(markers@),
                plan(t, all.skip(j as int), markers_view(markers@)),
            ),
        decreases all.len() - j,
    {
        let ghost rest = all.skip(j as int);
        proof {
            assert(rest[0] == all[j as int]);
            assert(rest.drop_first() =~= all.skip(j + 1));
        }
        let call = &calls[j];
        if let Some((header, tokens)) = match_if_chain(call) {
            let ins = match rewrite_tokens(tokens) {
                Some(ins) => ins,
                None => {
                    return Err(RewriteError::MissingThen);
                },
            };
            let marker = match fresh_marker(contents, &markers) {
                Some(m) => m,
                None => {
                    return Err(RewriteError::NoFreshMarker);
                },
            };
            let ghost e0 = edits_view(edits@);
            let ghost m0 = markers_view(markers@);
            let ghost all_ins = seq![
                Insertion { span: header, kind: InsertionKind::Header(call.is_item) },
            ] + ins@;
            let ghost m = marker@;
            edits.push(render_edit(Insertion { span: header, kind: InsertionKind::Header(call.is_item) }, &marker));
            let mut k: usize = 0;
            proof {
                assert(edits_view(edits@) =~= e0 + render_all(all_ins.take(1), m));
            }
            while k < ins.len()
                invariant
                    all_ins == seq![
                        Insertion { span: header, kind: InsertionKind::Header(call.is_item) },
                    ] + ins@,
                    m == marker@,
                    k <= ins@.len(),
                    edits_view(edits@) == e0 + render_all(all_ins.take(k + 1), m),
                decreases ins@.len() - k,
            {
                let ghost before = edits@;
                let e = render_edit(ins[k], &marker);
                edits.push(e);
                proof {
                    assert(edits_view(edits@) =~= edits_view(before).push((e.span, e.replacement@)));
                    assert(all_ins[k + 1] == ins@[k as int]);
                    assert(render_all(all_ins.take(k + 2), m) =~= render_all(all_ins.take(k + 1), m).push(
                        (ins@[k as int].span, render(ins@[k as int].kind, m)),
                    ));
                    assert(edits_view(edits@) =~= e0 + render_all(all_ins.take(k + 2), m));
                }
                k = k + 1;
            }
            markers.push(marker);
            proof {
                assert(all_ins.take(k + 1) =~= all_ins);
                assert(markers_view(markers@) =~= m0.push(m));
                let after = plan(t, all.skip(j + 1), m0.push(m));
                if after is Ok {
                    let p = after->Ok_0;
                    assert(e0 + (render_all(all_ins, m) + p.0) =~= (e0 + render_all(all_ins, m))
                        + p.0);
                    assert(m0 + (seq![m] + p.1) =~= m0.push(m) + p.1);
                }
            }
        }
        j = j + 1;
    }
    proof {
        assert(all.skip(j as int) =~= Seq::<MacroCall>::empty());
        assert(edits_view(edits@) + Seq::<EditView>::empty() =~= edits_view(edits@));
        assert(markers_view(markers@) + Seq::<Seq<char>>::empty() =~= markers_view(markers@));
    }
    Ok((edits, markers))
}

/// The original text with the edits made, or `None` if some edit's span
/// does not follow the one before it.
pub fn apply_edits_to(contents: &str, edits: &Vec<Edit>) -> (r: Option<String>)
    ensures
        r is Some <==> edits_valid(contents@, text_start(), edits_view(edits@)),
        r matches Some(s) ==> s@ == apply_edits(contents@, text_start(), edits_view(edits@)),
{
    let ghost t = contents@;
    let ghost es = edits_view(edits@);
    let mut rewriter = Rewriter::new(contents);
    let mut j: usize = 0;
    proof {
        assert(es.skip(0) =~= es);
        assert(Seq::<char>::empty() + apply_edits(t, text_start(), es) =~= apply_edits(
            t,
            text_start(),
            es,
        ));
    }
    while j < edits.len()
        invariant
            t == contents@,
            es == edits_view(edits@),
            j <= es.len(),
            rewriter.wf(),
            rewriter.original() == t,
            edits_valid(t, text_start(), es) == edits_valid(t, rewriter.last(), es.skip(j as int)),
            edits_valid(t, text_start(), es) ==> apply_edits(t, text_start(), es)
                == rewriter.written() + apply_edits(t, rewriter.last(), es.skip(j as int)),
        decreases es.len() - j,
    {
        let ghost rest = es.skip(j as int);
        proof {
            assert(rest[0] == es[j as int]);
            assert(rest.drop_first() =~= es.skip(j + 1));
        }
        let edit = &edits[j];
        if !rewriter.accepts(&edit.span) {
            return None;
        }
        let ghost w0 = rewriter.written();
        let ghost last = rewriter.last();
        rewriter.rewrite(edit.span, edit.replacement.as_str());
        proof {
            let a = t.subrange(char_index(t, last), char_index(t, edit.span.start));
            let b = edit.replacement@;
            let c = apply_edits(t, edit.span.end, es.skip(j + 1));
            assert(w0 + (a + b + c) =~= (w0 + a + b) + c);
        }
        j = j + 1;
    }
    proof {
        assert(es.skip(j as int) =~= Seq::<EditView>::empty());
    }
    Some(rewriter.contents())
}

/// The text after the forward rewrite: every `if_chain!` invocation among
/// `calls` rewritten around a marker of its own, and those markers in the
/// order of the invocations.
pub fn rewrite_if_chain(contents: &str, calls: &Vec<MacroCall>) -> (r: Result<
    (String, Vec<String>),
    RewriteError,
>)
    ensures
        match plan(contents@, calls@, Seq::empty()) {
            Err(e) => r == Err::<(String, Vec<String>), RewriteError>(e),
            Ok(p) => if edits_valid(contents@, text_start(), p.0) {
                r matches Ok(q) && q.0@ == apply_edits(contents@, text_start(), p.0)
                    && markers_view(q.1@) == p.1
            } else {
                r == Err::<(String, Vec<String>), RewriteError>(RewriteError::SpanOutOfOrder)
            },
        },
{
    let (edits, markers) = match plan_edits(contents, calls) {
        Ok(p) => p,
        Err(e) => {
            return Err(e);
        },
    };
    match apply_edits_to(contents, &edits) {
        Some(text) => Ok((text, markers)),
        None => Err(RewriteError::SpanOutOfOrder),
    }
}

/// Each invocation gets a marker of its own: every marker of a plan fits
/// beside the markers chosen before it, so none occurs in the text, and no
/// two are equal.
pub proof fn lemma_plan_markers_fresh(t: Seq<char>, calls: Seq<MacroCall>, taken: Seq<Seq<char>>)
    ensures
        plan(t, calls, taken) matches Ok(p) ==> forall|k: int|
            0 <= k < p.1.len() ==> marker_fits(t, taken + p.1.take(k), #[trigger] p.1[k]),
        plan(t, calls, taken) matches Ok(p) ==> forall|k: int|
            0 <= k < p.1.len() ==> !has_substring(t, #[trigger] p.1[k]),
        plan(t, calls, taken) matches Ok(p) ==> forall|i: int, j: int|
            0 <= i < j < p.1.len() ==> #[trigger] p.1[i] != #[trigger] p.1[j],
    decreases calls.len(),
{
    if calls.len() > 0 {
        if !is_if_chain(calls[0]) {
            lemma_plan_markers_fresh(t, calls.drop_first(), taken);
        } else if clause_insertions(calls[0].tokens@) is Some && fresh_marker_of(t, taken) is Some {
            let m = fresh_marker_of(t, taken)->Some_0;
            lemma_fresh_marker_fits(t, taken);
            lemma_plan_markers_fresh(t, calls.drop_first(), taken.push(m));
            if plan(t, calls, taken) is Ok {
                let rest = plan(t, calls.drop_first(), taken.push(m))->Ok_0.1;
                let ms = plan(t, calls, taken)->Ok_0.1;
                assert(ms == seq![m] + rest);
                assert forall|k: int| 0 <= k < ms.len() implies marker_fits(
                    t,
                    taken + ms.take(k),
                    #[trigger] ms[k],
                ) by {
                    if k == 0 {
                        assert(taken + ms.take(0) =~= taken);
                    } else {
                        assert(taken + ms.take(k) =~= taken.push(m) + rest.take(k - 1));
                        assert(ms[k] == rest[k - 1]);
                    }
                }
                assert forall|i: int, j: int| 0 <= i < j < ms.len() implies #[trigger] ms[i]
                    != #[trigger] ms[j] by {
                    let before = taken + ms.take(j);
                    assert(marker_fits(t, before, ms[j]));
                    assert(before[taken.len() + i] == ms[i]);
                    lemma_has_substring_self(ms[i]);
                }
            }
        }
    }
}

/// Token `j` is a `;` followed by the `then` keyword.
pub open spec fn then_at(toks: Seq<Token>, j: int) -> bool {
    boundary_at(toks, j) && ident_of(toks[j + 1]) == Some("then"@)
}

/// A body in which no `;` is followed by `then` has no terminal clause: the
/// scan finds none.
pub proof fn lemma_scan_needs_then(toks: Seq<Token>, i: int, ends_let: bool)
    requires
        forall|j: int| i <= j ==> !#[trigger] then_at(toks, j),
    ensures
        scan(toks, i, ends_let) is None,
    decreases toks.len() - i,
{
    if 0 <= i < toks.len() {
        assert(!then_at(toks, i));
        if boundary_at(toks, i) {
            let w = ident_of(toks[i + 1])->Some_0;
            lemma_scan_needs_then(toks, i + 1, w == "let"@);
        } else {
            lemma_scan_needs_then(toks, i + 1, ends_let);
        }
    }
}

/// An `if_chain!` invocation in which no clause is followed by `then` stops
/// the whole rewrite: the plan fails, so nothing is written.
pub proof fn lemma_missing_then_aborts(
    t: Seq<char>,
    calls: Seq<MacroCall>,
    taken: Seq<Seq<char>>,
    k: int,
)
    requires
        0 <= k < calls.len(),
        is_if_chain(calls[k]),
        forall|j: int| !#[trigger] then_at(calls[k].tokens@, j),
    ensures
        plan(t, calls, taken) is Err,
    decreases calls.len(),
{
    lemma_scan_needs_then(calls[k].tokens@, 0, starts_with_let(calls[k].tokens@));
    if k > 0 {
        let rest = calls.drop_first();
        assert(rest[k - 1] == calls[k]);
        if is_if_chain(calls[0]) {
            if clause_insertions(calls[0].tokens@) is Some && fresh_marker_of(t, taken) is Some {
                lemma_missing_then_aborts(t, rest, taken.push(fresh_marker_of(t, taken)->Some_0), k - 1);
            }
        } else {
            lemma_missing_then_aborts(t, rest, taken, k - 1);
        }
    }
}

/// Without `if_chain!` invocations the plan is empty: the forward rewrite
/// gives back the text unchanged, with no markers, and the reverse rewrite
/// with no markers gives it back unchanged too.
pub proof fn lemma_no_invocations_round_trip(t: Seq<char>, calls: Seq<MacroCall>, taken: Seq<Seq<char>>)
    requires
        forall|k: int| 0 <= k < calls.len() ==> !is_if_chain(#[trigger] calls[k]),
    ensures
        plan(t, calls, taken) == Ok::<(Seq<EditView>, Seq<Seq<char>>), RewriteError>(
            (Seq::empty(), Seq::empty()),
        ),
        edits_valid(t, text_start(), Seq::empty()),
        apply_edits(t, text_start(), Seq::empty()) == t,
    decreases calls.len(),
{
    if calls.len() > 0 {
        assert(!is_if_chain(calls[0]));
        assert forall|k: int| 0 <= k < calls.drop_first().len() implies !is_if_chain(
            #[trigger] calls.drop_first()[k],
        ) by {
            assert(calls.drop_first()[k] == calls[k + 1]);
        }
        lemma_no_invocations_round_trip(t, calls.drop_first(), taken);
    }
    crate::offset_calculator::lemma_char_index_bounds(t, text_start());
    assert(t.skip(0) =~= t);
}

} // verus!
