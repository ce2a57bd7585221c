use helix_core::changes::change;
use helix_core::fold::{
    indent_spans, normalize_spans, spans_containing_line, tree_sitter_spans, FoldSpan, Folds,
    SyntaxNode,
};
use helix_core::text::Text;

fn rope(s: &str) -> Text {
    Text::new(s.chars().collect())
}

fn span(first_line: usize, last_line: usize) -> FoldSpan {
    FoldSpan {
        first_line,
        last_line,
    }
}

fn folded_spans(folds: &Folds) -> Vec<FoldSpan> {
    folds.folded().iter().map(|f| f.span()).collect()
}

#[test]
fn fold_span_new_needs_two_lines() {
    assert_eq!(FoldSpan::new(1, 3), Some(span(1, 3)));
    assert_eq!(FoldSpan::new(3, 3), None);
    assert_eq!(FoldSpan::new(4, 3), None);
    assert!(span(1, 3).contains_line(1));
    assert!(span(1, 3).contains_line(3));
    assert!(!span(1, 3).contains_line(0));
    assert!(!span(1, 3).contains_line(4));
}

#[test]
fn normalize_sorts_outermost_first_and_dedups() {
    let mut spans = vec![span(2, 3), span(0, 1), span(0, 5), span(2, 3), span(0, 1)];
    normalize_spans(&mut spans);
    assert_eq!(spans, [span(0, 5), span(0, 1), span(2, 3)]);
}

#[test]
fn indent_spans_with_tabs() {
    // a tab reaches the next multiple of the tab width
    let text = rope("a\n\tb\n    c\n  d\ne\n");
    assert_eq!(indent_spans(&text, 4), [span(0, 3)]);
    assert_eq!(indent_spans(&text, 2), [span(0, 3), span(1, 2)]);
}

#[test]
fn indent_spans_of_flat_text_are_empty() {
    assert_eq!(indent_spans(&rope("a\nb\n\nc"), 4), []);
    assert_eq!(indent_spans(&rope(""), 4), []);
}

#[test]
fn indent_span_reaching_the_last_line() {
    let text = rope("a\n  b\n  c");
    assert_eq!(indent_spans(&text, 4), [span(0, 2)]);
}

#[test]
fn spans_containing_a_line_outermost_first() {
    let spans = [span(0, 9), span(1, 4), span(2, 3), span(5, 8), span(6, 7)];
    assert_eq!(spans_containing_line(&spans, 3), [span(0, 9), span(1, 4), span(2, 3)]);
    assert_eq!(spans_containing_line(&spans, 5), [span(0, 9), span(5, 8)]);
    assert_eq!(spans_containing_line(&spans, 10), []);
}

#[test]
fn tree_sitter_spans_trim_and_skip() {
    // "a {\n  b\n\n}\n" : the block ends right after its line break, and a blank line before
    // its closing brace does not matter; an anonymous node is never foldable
    let src = "a {\n  b\n\n}\n";
    let text = rope(src);
    let nodes = [
        SyntaxNode {
            start_byte: 2,
            end_byte: src.len(),
            is_named: true,
        },
        SyntaxNode {
            start_byte: 0,
            end_byte: 8,
            is_named: true,
        },
        SyntaxNode {
            start_byte: 0,
            end_byte: src.len(),
            is_named: false,
        },
    ];
    // the first node covers lines 0..=3; the second ends at the start of the blank line 2,
    // so it covers lines 0..=1
    assert_eq!(tree_sitter_spans(&nodes, &text), [span(0, 3), span(0, 1)]);
}

#[test]
fn tree_sitter_spans_count_bytes_of_wide_chars() {
    // "é" takes two bytes and "⌚" three
    let src = "é\n⌚\nx";
    let text = rope(src);
    let nodes = [SyntaxNode {
        start_byte: 0,
        end_byte: src.len(),
        is_named: true,
    }];
    assert_eq!(tree_sitter_spans(&nodes, &text), [span(0, 2)]);
    let nodes = [SyntaxNode {
        start_byte: 3,
        end_byte: src.len(),
        is_named: true,
    }];
    assert_eq!(tree_sitter_spans(&nodes, &text), [span(1, 2)]);
}

#[test]
fn placeholder_counts_hidden_lines() {
    let text = rope("a\nb\nc\nd\ne\nf\ng\nh\ni\nj\nk\nl\n");
    let mut folds = Folds::default();
    assert!(folds.close(&text, span(0, 1)));
    assert_eq!(&*folds.folded()[0].placeholder, " … 1 line");
    assert_eq!(folds.folded()[0].hidden_lines(), 1);
    let mut folds = Folds::default();
    assert!(folds.close(&text, span(0, 11)));
    assert_eq!(&*folds.folded()[0].placeholder, " … 11 lines");
}

#[test]
fn closing_twice_changes_nothing() {
    let text = rope("a\n b\n c\nd\n");
    let mut folds = Folds::default();
    assert!(!folds.is_closed(span(0, 2)));
    assert!(folds.close(&text, span(0, 2)));
    assert!(folds.is_closed(span(0, 2)));
    let before = folded_spans(&folds);
    assert!(!folds.close(&text, span(0, 2)));
    assert_eq!(folded_spans(&folds), before);
}

#[test]
fn closing_spans_outside_the_text_does_nothing() {
    let text = rope("a\n b\n");
    let mut folds = Folds::default();
    assert!(!folds.close(&text, span(0, 5)));
    // the last line is the empty line after the final line break: nothing to hide
    assert!(!folds.close(&text, span(1, 2)));
    assert!(folds.is_empty());
}

#[test]
fn open_reports_whether_the_span_was_closed() {
    let text = rope("a\n b\n  c\n  d\n e\nf\n");
    let mut folds = Folds::default();
    assert!(!folds.open(span(0, 4)));
    folds.close_all(&text, &[span(0, 4), span(1, 3)]);
    assert!(folds.open(span(0, 4)));
    assert!(!folds.open(span(0, 4)));
    assert!(folds.is_closed(span(1, 3)));
    assert!(!folds.open_within(span(5, 6)));
    folds.open_all();
    assert!(folds.is_empty());
    assert!(folds.folded().is_empty());
}

#[test]
fn folded_at_header_finds_the_rendered_fold() {
    let text = rope("a\n b\nc\n d\n");
    let mut folds = Folds::default();
    folds.close_all(&text, &[span(0, 1), span(2, 3)]);
    assert_eq!(folds.folded_at_header(2).map(|f| f.span()), Some(span(2, 3)));
    assert_eq!(folds.folded_at_header(0).map(|f| f.span()), Some(span(0, 1)));
    assert!(folds.folded_at_header(1).is_none());
    assert!(folds.folded_at_header(7).is_none());
}

#[test]
fn hiding_spares_the_header_line_ending_and_the_next_line() {
    let text = rope("ab\ncd\nef\n");
    let mut folds = Folds::default();
    folds.close(&text, span(0, 1));
    let fold = &folds.folded()[0];
    assert_eq!((fold.start, fold.end), (2, 6));
    assert!(folds.hiding(2).is_none());
    assert!(folds.hiding(3).is_some());
    assert!(folds.hiding(5).is_some());
    assert!(folds.hiding(6).is_none());
    assert!(!folds.reveal_char(2));
    assert!(folds.reveal_char(4));
    assert!(folds.is_empty());
}

#[test]
fn visible_pos_on_an_empty_header() {
    let text = rope("\nbody\nnext\n");
    let mut folds = Folds::default();
    folds.close(&text, span(0, 1));
    assert_eq!(folds.visible_pos(&text, 3), 0);
}

#[test]
fn refresh_with_the_same_text_changes_nothing() {
    let text = rope("a\n b\n  c\n  d\n e\nf\n");
    let mut folds = Folds::default();
    folds.close_all(&text, &[span(0, 4), span(1, 3)]);
    let before = folded_spans(&folds);
    folds.refresh(&text);
    assert_eq!(folded_spans(&folds), before);
    assert!(folds.is_closed(span(1, 3)));
}

#[test]
fn refresh_drops_folds_that_lost_their_lines() {
    let text = rope("a\n b\n c\nd\n");
    let mut folds = Folds::default();
    folds.close(&text, span(0, 2));
    folds.refresh(&rope("abc"));
    assert!(folds.is_empty());
}

#[test]
fn deleting_inside_a_fold_shrinks_it() {
    let mut text = rope("a\nb\nc\nd\ne\n");
    let mut folds = Folds::default();
    folds.close(&text, span(0, 3));
    // delete line "b\n"
    let t = change(&text, &vec![(2, 4, None)]);
    text = t.apply(&text).unwrap();
    folds.map(&text, &t);
    assert_eq!(folded_spans(&folds), [span(0, 2)]);
    assert_eq!(&*folds.folded()[0].placeholder, " … 2 lines");
}

#[test]
fn mapping_with_no_folds_is_a_no_op() {
    let mut text = rope("a\nb\n");
    let mut folds = Folds::default();
    let t = change(&text, &vec![(0, 0, Some("x".to_string()))]);
    text = t.apply(&text).unwrap();
    folds.map(&text, &t);
    assert!(folds.is_empty());
}

#[test]
fn cloned_folds_are_independent() {
    let text = rope("a\n b\nc\n");
    let mut folds = Folds::default();
    folds.close(&text, span(0, 1));
    let copy = folds.clone();
    folds.open_all();
    assert!(folds.is_empty());
    assert!(copy.is_closed(span(0, 1)));
}
