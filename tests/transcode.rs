use proc_macro2::{Delimiter, TokenStream, TokenTree};
use rustfmt_if_chain::{
    fresh_marker, match_if_chain, restore_if_chain, rewrite_if_chain, rewrite_tokens,
    unused_ident, InsertionKind, LineColumn, MacroCall, RewriteError, Span, Token,
    TokenKind,
};

fn position(p: proc_macro2::LineColumn) -> LineColumn {
    LineColumn { line: p.line, column: p.column }
}

fn span_of(s: proc_macro2::Span) -> Span {
    Span { start: position(s.start()), end: position(s.end()) }
}

fn token_of(tt: &TokenTree) -> Token {
    let kind = match tt {
        TokenTree::Punct(p) => TokenKind::Punct(p.as_char()),
        TokenTree::Ident(i) => TokenKind::Ident(i.to_string()),
        _ => TokenKind::Other,
    };
    Token { kind, span: span_of(tt.span()) }
}

/// The top-level `name! { ... }` invocations of `text`, in order.
fn calls_in(text: &str, is_item: bool) -> Vec<MacroCall> {
    let stream: TokenStream = text.parse().unwrap();
    let trees: Vec<TokenTree> = stream.into_iter().collect();
    let mut calls = Vec::new();
    for w in trees.windows(3) {
        if let (TokenTree::Ident(name), TokenTree::Punct(bang), TokenTree::Group(group)) =
            (&w[0], &w[1], &w[2])
        {
            if bang.as_char() != '!' {
                continue;
            }
            calls.push(MacroCall {
                path: vec![name.to_string()],
                brace: group.delimiter() == Delimiter::Brace,
                header: Span {
                    start: position(name.span().start()),
                    end: position(bang.span().end()),
                },
                tokens: group.stream().into_iter().map(|t| token_of(&t)).collect(),
                is_item,
            });
        }
    }
    calls
}

const FOUR_CLAUSES: &str = "if_chain! {
    if let Some(x) = a;
    let y = x + 1;
    if y > 0;
    then { f(y); }
}
";

#[test]
fn marker_is_first_absent_candidate() {
    assert_eq!(unused_ident("").as_deref(), Some("x0"));
    assert_eq!(unused_ident("let y = 1;").as_deref(), Some("x0"));
    assert_eq!(unused_ident("x0 x1 x2 x3").as_deref(), Some("x4"));
}

#[test]
fn marker_avoids_adversarial_text() {
    let mut text = String::new();
    for i in 0..120 {
        text.push_str(&format!("x{i} "));
    }
    let m = unused_ident(&text).unwrap();
    assert_eq!(m, "x120");
    assert!(!text.contains(&m));
}

#[test]
fn fresh_markers_avoid_each_other() {
    let taken = vec!["x0".to_string()];
    assert_eq!(fresh_marker("", &taken).as_deref(), Some("x1"));
    // `x10` to `x19` contain the marker `x1` already taken.
    let taken = vec!["x1".to_string()];
    assert_eq!(
        fresh_marker("x0 x2 x3 x4 x5 x6 x7 x8 x9", &taken).as_deref(),
        Some("x20")
    );
}

#[test]
fn clause_scan_places_markers() {
    let calls = calls_in(FOUR_CLAUSES, true);
    assert_eq!(calls.len(), 1);
    let (header, tokens) = match_if_chain(&calls[0]).unwrap();
    assert_eq!(header.start, LineColumn { line: 1, column: 0 });
    assert_eq!(header.end, LineColumn { line: 1, column: 9 });
    let ins = rewrite_tokens(tokens).unwrap();
    let kinds: Vec<InsertionKind> = ins.iter().map(|i| i.kind).collect();
    assert_eq!(
        kinds,
        vec![InsertionKind::Statement, InsertionKind::Statement, InsertionKind::Condition]
    );
    // The `;` after `a`, the `;` after `0`, and `then`.
    assert_eq!(ins[0].span.start, LineColumn { line: 2, column: 22 });
    assert_eq!(ins[1].span.start, LineColumn { line: 4, column: 12 });
    assert_eq!(ins[2].span.start, LineColumn { line: 5, column: 4 });
}

#[test]
fn clause_scan_starting_with_let() {
    let calls = calls_in("if_chain! { let a = b; if a; then { c } }", true);
    let ins = rewrite_tokens(&calls[0].tokens).unwrap();
    let kinds: Vec<InsertionKind> = ins.iter().map(|i| i.kind).collect();
    assert_eq!(kinds, vec![InsertionKind::Statement, InsertionKind::Condition]);
    assert_eq!(ins[0].span.start, LineColumn { line: 1, column: 27 });
}

#[test]
fn other_macros_are_left_alone() {
    let text = "println! { \"a\" }\nif_chain! ( if a; then { b } )\n";
    let calls = calls_in(text, true);
    assert_eq!(calls.len(), 2);
    assert!(match_if_chain(&calls[0]).is_none());
    assert!(match_if_chain(&calls[1]).is_none());
    let (out, markers) = rewrite_if_chain(text, &calls).unwrap();
    assert_eq!(out, text);
    assert!(markers.is_empty());
}

#[test]
fn forward_rewrite_of_four_clauses() {
    let calls = calls_in(FOUR_CLAUSES, true);
    let (out, markers) = rewrite_if_chain(FOUR_CLAUSES, &calls).unwrap();
    assert_eq!(markers, vec!["x0".to_string()]);
    assert_eq!(
        out,
        "fn x0 () {
    if let Some(x) = a{ x0 ; }
    let y = x + 1;
    if y > 0{ x0 ; }
    if x0 { f(y); }
}
"
    );
}

#[test]
fn round_trip_restores_four_clauses() {
    let calls = calls_in(FOUR_CLAUSES, true);
    let (out, markers) = rewrite_if_chain(FOUR_CLAUSES, &calls).unwrap();
    let back = restore_if_chain(&out, &markers).unwrap();
    assert_eq!(back, FOUR_CLAUSES);
}

#[test]
fn round_trip_after_reformatting() {
    let calls = calls_in(FOUR_CLAUSES, true);
    let (_, markers) = rewrite_if_chain(FOUR_CLAUSES, &calls).unwrap();
    // What a formatter makes of the forward rewrite.
    let formatted = "fn x0() {
    if let Some(x) = a {
        x0;
    }
    let y = x + 1;
    if y > 0 {
        x0;
    }
    if x0 {
        f(y);
    }
}
";
    let back = restore_if_chain(formatted, &markers).unwrap();
    assert_eq!(
        back,
        "if_chain! {
    if let Some(x) = a;
    let y = x + 1;
    if y > 0;
    then {
        f(y);
    }
}
"
    );
}

#[test]
fn expression_invocation_becomes_closure() {
    let text = "if_chain! { if a; then { b } }";
    let calls = calls_in(text, false);
    let (out, markers) = rewrite_if_chain(text, &calls).unwrap();
    assert_eq!(out, "| x0 | { if a{ x0 ; } if x0 { b } }");
    assert_eq!(restore_if_chain(&out, &markers).unwrap(), "if_chain! { if a; then { b } }");
}

#[test]
fn two_invocations_get_distinct_markers() {
    let text = "if_chain! { if a; then { b } }\nif_chain! { if c; then { d } }\n";
    let calls = calls_in(text, true);
    let (out, markers) = rewrite_if_chain(text, &calls).unwrap();
    assert_eq!(markers, vec!["x0".to_string(), "x1".to_string()]);
    assert_eq!(
        out,
        "fn x0 () { if a{ x0 ; } if x0 { b } }\nfn x1 () { if c{ x1 ; } if x1 { d } }\n"
    );
    assert_eq!(restore_if_chain(&out, &markers).unwrap(), text);
}

#[test]
fn missing_then_aborts() {
    let text = "if_chain! { if a; then { b } }\nif_chain! { if c; if d; }\n";
    let calls = calls_in(text, true);
    assert_eq!(rewrite_if_chain(text, &calls), Err(RewriteError::MissingThen));
    assert!(rewrite_tokens(&calls[1].tokens).is_none());
}

#[test]
fn spans_out_of_order_abort() {
    let text = "if_chain! { if a; then { b } }\nif_chain! { if c; then { d } }\n";
    let mut calls = calls_in(text, true);
    calls.reverse();
    assert_eq!(rewrite_if_chain(text, &calls), Err(RewriteError::SpanOutOfOrder));
}

#[test]
fn no_markers_restore_nothing() {
    let text = "fn main() { if x0 { } }\n";
    assert_eq!(restore_if_chain(text, &Vec::new()).unwrap(), text);
}

#[test]
fn restore_rewrites_only_marker_shapes() {
    let markers = vec!["x3".to_string()];
    let text = "fn x3 () { if p { x3 ; } if x3 { q } }\nfn other() { if y { z; } }\n";
    assert_eq!(
        restore_if_chain(text, &markers).unwrap(),
        "if_chain! { if p; then { q } }\nfn other() { if y { z; } }\n"
    );
}
