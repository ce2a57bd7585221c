use helix_core::changes::change;
use helix_core::fold::{indent_spans, FoldSpan, Folds};
use helix_core::text::Text;

fn rope(s: &str) -> Text {
    Text::new(s.chars().collect())
}

fn span(first_line: usize, last_line: usize) -> FoldSpan {
    FoldSpan {
        first_line,
        last_line,
    }
}

#[test]
fn indent_spans_nested() {
    let text = rope(
        "\
a
  b
    c

    d
  e
f
  g
",
    );
    assert_eq!(
        indent_spans(&text, 4),
        [span(0, 5), span(1, 4), span(6, 7)]
    );
}

#[test]
fn indent_spans_ignore_trailing_blank_lines() {
    let text = rope("a\n  b\n\n\nc\n");
    assert_eq!(indent_spans(&text, 4), [span(0, 1)]);
}

#[test]
fn close_normalizes_and_hides() {
    let text = rope("fn a() {\n    1\n    2\n}\nnext\n");
    let mut folds = Folds::default();
    assert!(folds.close(&text, span(0, 2)));
    assert!(!folds.close(&text, span(0, 2)));

    let fold = &folds.folded()[0];
    assert_eq!(fold.header_line, 0);
    assert_eq!(fold.last_line, 2);
    // the header's line ending is the first hidden char
    assert_eq!(fold.start, 8);
    assert_eq!(fold.end, text.line_to_char(3));
    assert_eq!(&*fold.placeholder, " … 2 lines");
    assert!(!fold.hides(fold.start));
    assert!(fold.hides(fold.start + 1));
    assert!(!fold.hides(fold.end));
}

#[test]
fn nested_folds_only_outermost_is_rendered() {
    let text = rope("a\n b\n  c\n  d\n e\nf\n");
    let mut folds = Folds::default();
    folds.close(&text, span(1, 3));
    folds.close(&text, span(0, 4));
    assert_eq!(folds.folded().len(), 1);
    assert_eq!(folds.folded()[0].header_line, 0);

    // opening the outer fold reveals the inner one, which stays closed
    assert!(folds.open(span(0, 4)));
    assert_eq!(folds.folded().len(), 1);
    assert_eq!(folds.folded()[0].header_line, 1);
}

#[test]
fn close_all_and_open_within() {
    let text = rope("a\n b\n  c\n  d\n e\nf\n g\n");
    let mut folds = Folds::default();
    let spans = [span(0, 4), span(1, 3), span(5, 6)];
    assert!(folds.close_all(&text, &spans));
    // closing again changes nothing
    assert!(!folds.close_all(&text, &spans));
    assert_eq!(folds.folded().len(), 2);

    assert!(folds.open_within(span(0, 4)));
    assert_eq!(folds.folded().len(), 1);
    assert_eq!(folds.folded()[0].span(), span(5, 6));
}

#[test]
fn reveal_opens_every_fold_hiding_a_position() {
    let text = rope("a\n b\n  c\n  d\n e\nf\n");
    let mut folds = Folds::default();
    folds.close(&text, span(1, 3));
    folds.close(&text, span(0, 4));
    let in_c = text.line_to_char(2) + 2;
    assert!(folds.hiding(in_c).is_some());
    assert!(folds.reveal_char(in_c));
    assert!(folds.is_empty());
    assert!(!folds.reveal_char(in_c));
}

#[test]
fn fold_folds_follow_edits() {
    let mut text = rope("a\nb\nc\nd\ne\n");
    let mut folds = Folds::default();
    folds.close(&text, span(1, 3));

    // open a line above the header: the fold moves down with its header
    let t = change(&text, &vec![(2, 2, Some("x\n".to_string()))]);
    text = t.apply(&text).expect("the change fits the text");
    folds.map(&text, &t);
    assert_eq!(folds.folded()[0].span(), span(2, 4));

    // text inserted at the start of the header line stays on the header line
    let t = change(&text, &vec![(4, 4, Some("y\n".to_string()))]);
    text = t.apply(&text).expect("the change fits the text");
    folds.map(&text, &t);
    assert_eq!(folds.folded()[0].span(), span(3, 5));

    // text inserted after the fold is not hidden
    let after = folds.folded()[0].end;
    let t = change(&text, &vec![(after, after, Some("z\n".to_string()))]);
    text = t.apply(&text).expect("the change fits the text");
    folds.map(&text, &t);
    assert_eq!(folds.folded()[0].span(), span(3, 5));

    // deleting the whole body removes the fold
    let fold = &folds.folded()[0];
    let t = change(&text, &vec![(fold.start, fold.end, None)]);
    text = t.apply(&text).expect("the change fits the text");
    folds.map(&text, &t);
    assert!(folds.is_empty());
}

#[test]
fn visible_pos_moves_to_header() {
    let text = rope("header\nbody body\nmore\nnext\n");
    let mut folds = Folds::default();
    folds.close(&text, span(0, 2));
    let in_body = text.line_to_char(1) + 4;
    assert_eq!(folds.visible_pos(&text, in_body), 4);
    let far_in_body = text.line_to_char(1) + 8;
    // clamped to the last char of the header
    assert_eq!(folds.visible_pos(&text, far_in_body), 5);
    assert_eq!(folds.visible_pos(&text, 3), 3);
}
