use rustfmt_if_chain::offset_calculator::Interface as _;
use rustfmt_if_chain::{
    CachingOffsetCalculator, EagerRewriter, Interface, LazyRewriter, LineColumn,
    OffsetBasedRewriter, Rewriter, Span, StatelessOffsetCalculator,
};

fn lc(line: usize, column: usize) -> LineColumn {
    LineColumn { line, column }
}

#[test]
fn stateless_ascii_offsets() {
    let mut c = StatelessOffsetCalculator::new("ab\ncd\n\nef");
    assert_eq!(c.offset_from_line_column(lc(1, 0)), (0, true));
    assert_eq!(c.offset_from_line_column(lc(1, 2)), (2, true));
    assert_eq!(c.offset_from_line_column(lc(2, 1)), (4, true));
    assert_eq!(c.offset_from_line_column(lc(3, 0)), (6, true));
    assert_eq!(c.offset_from_line_column(lc(4, 2)), (9, true));
    // Queries need not come in order.
    assert_eq!(c.offset_from_line_column(lc(1, 1)), (1, true));
}

#[test]
fn column_past_line_end_stops_at_line_end() {
    let mut c = StatelessOffsetCalculator::new("ab\ncd");
    assert_eq!(c.offset_from_line_column(lc(1, 10)), (2, true));
    let mut d = CachingOffsetCalculator::new("ab\ncd");
    assert_eq!(d.offset_from_line_column(lc(1, 10)), (2, true));
    assert_eq!(d.offset_from_line_column(lc(1, 12)), (2, true));
    assert_eq!(d.offset_from_line_column(lc(2, 1)), (4, true));
}

#[test]
fn multibyte_offsets_count_bytes() {
    // 'é' takes two bytes, '€' three, '𝄞' four.
    let text = "aé€\n𝄞b";
    let mut c = StatelessOffsetCalculator::new(text);
    assert_eq!(c.offset_from_line_column(lc(1, 1)), (1, true));
    assert_eq!(c.offset_from_line_column(lc(1, 2)), (3, false));
    assert_eq!(c.offset_from_line_column(lc(1, 3)), (6, false));
    assert_eq!(c.offset_from_line_column(lc(2, 0)), (7, false));
    assert_eq!(c.offset_from_line_column(lc(2, 1)), (11, false));
    assert_eq!(c.offset_from_line_column(lc(2, 2)), (12, false));
}

#[test]
fn ascii_offset_equals_character_index() {
    let text = "fn main() {\n    let x = 1;\n}\n";
    let mut c = StatelessOffsetCalculator::new(text);
    let (offset, ascii) = c.offset_from_line_column(lc(2, 8));
    assert!(ascii);
    assert_eq!(offset, 12 + 8);
    assert_eq!(&text[offset..offset + 1], "x");
}

#[test]
fn caching_agrees_with_stateless_and_grows() {
    let text = "héllo\n\nwörld ünïcode\nlast line €\n";
    let lines: Vec<&str> = text.split('\n').collect();
    let mut stateless = StatelessOffsetCalculator::new(text);
    let mut caching = CachingOffsetCalculator::new(text);
    let mut previous = 0;
    for (i, line) in lines.iter().enumerate() {
        for column in 0..=line.chars().count() + 1 {
            let p = lc(i + 1, column);
            let a = stateless.offset_from_line_column(p);
            let b = caching.offset_from_line_column(p);
            assert_eq!(a, b);
            assert!(b.0 >= previous);
            previous = b.0;
        }
    }
}

#[test]
fn lazy_rewriter_splices() {
    let mut r = LazyRewriter::new("hello wide world");
    r.rewrite(0, 5, "bye");
    r.rewrite(6, 10, "");
    r.rewrite(11, 11, "big ");
    assert_eq!(r.contents(), "bye  big world");
}

#[test]
fn eager_rewriter_splices() {
    let mut r = EagerRewriter::new("hello wide world");
    r.rewrite(0, 5, "bye");
    r.rewrite(6, 10, "");
    r.rewrite(11, 11, "big ");
    assert_eq!(r.contents(), "bye  big world");
}

#[test]
fn lazy_and_eager_agree_on_multibyte_text() {
    let text = "é1€2𝄞3";
    // Byte offsets: é 0..2, 1 2..3, € 3..6, 2 6..7, 𝄞 7..11, 3 11..12.
    let ops: [(usize, usize, &str); 3] = [(0, 2, "e"), (3, 6, "EUR"), (7, 11, "")];
    let mut lazy = LazyRewriter::new(text);
    let mut eager = EagerRewriter::new(text);
    let mut both = OffsetBasedRewriter::with_cross_check(text);
    for (start, end, replacement) in ops {
        lazy.rewrite(start, end, replacement);
        eager.rewrite(start, end, replacement);
        both.rewrite(start, end, replacement);
    }
    let expected = "e1EUR23";
    assert_eq!(lazy.contents(), expected);
    assert_eq!(eager.contents(), expected);
    assert_eq!(both.contents(), expected);
}

#[test]
fn untouched_text_is_kept() {
    assert_eq!(LazyRewriter::new("abc").contents(), "abc");
    assert_eq!(EagerRewriter::new("abc").contents(), "abc");
    assert_eq!(Rewriter::new("abc").contents(), "abc");
}

#[test]
fn rewriter_replaces_spans_by_position() {
    let text = "let α = 1;\nlet β = 2;\n";
    let mut r = Rewriter::new(text);
    r.rewrite(Span { start: lc(1, 4), end: lc(1, 5) }, "alpha");
    r.rewrite(Span { start: lc(2, 4), end: lc(2, 5) }, "beta");
    assert_eq!(r.contents(), "let alpha = 1;\nlet beta = 2;\n");
}

#[test]
fn rewriter_refuses_overlapping_spans() {
    let text = "abcdef\nghi";
    let mut r = Rewriter::new(text);
    let first = Span { start: lc(1, 1), end: lc(1, 4) };
    assert!(r.accepts(&first));
    r.rewrite(first, "X");
    // Starts inside the span just replaced.
    assert!(!r.accepts(&Span { start: lc(1, 3), end: lc(1, 5) }));
    // Ends before it starts.
    assert!(!r.accepts(&Span { start: lc(1, 5), end: lc(1, 4) }));
    // Lies past the last line.
    assert!(!r.accepts(&Span { start: lc(3, 0), end: lc(3, 1) }));
    // Touching the previous span is fine.
    assert!(r.accepts(&Span { start: lc(1, 4), end: lc(2, 1) }));
    assert_eq!(r.contents(), "aXef\nghi");
}

#[test]
fn offset_based_rewriter_without_cross_check() {
    let mut r = OffsetBasedRewriter::new("aé b");
    r.rewrite(1, 3, "e");
    r.rewrite(4, 5, "c");
    assert_eq!(r.contents(), "ae c");
}
