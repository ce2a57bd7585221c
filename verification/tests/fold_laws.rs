use helix_core::fold::{indent_spans, FoldSpan, Folds};
use helix_core::search::{find_nth_char, Direction};
use helix_core::text::Text;

fn rope(s: &str) -> Text {
    Text::new(s.chars().collect())
}

fn span(first_line: usize, last_line: usize) -> FoldSpan {
    FoldSpan {
        first_line,
        last_line,
    }
}

fn folded_spans(folds: &Folds) -> Vec<FoldSpan> {
    folds.folded().iter().map(|f| f.span()).collect()
}

const NESTED: &str = "a\n  b\n    c\n    d\n  e\nf\n  g\n  h\ni\n";

#[test]
fn shown_position_is_never_hidden() {
    let text = rope(NESTED);
    let mut folds = Folds::default();
    folds.close_all(&text, &[span(0, 4), span(5, 7), span(1, 3)]);
    for pos in 0..=text.len_chars() {
        let shown = folds.visible_pos(&text, pos);
        assert!(folds.hiding(shown).is_none(), "{pos} shown at {shown}");
    }
}

#[test]
fn rendered_folds_are_those_not_nested_in_another() {
    let text = rope(NESTED);
    let spans = indent_spans(&text, 4);
    assert_eq!(spans, [span(0, 4), span(1, 3), span(5, 7)]);
    let mut folds = Folds::default();
    folds.close_all(&text, &spans);
    assert_eq!(folded_spans(&folds), [span(0, 4), span(5, 7)]);
    folds.open(span(0, 4));
    assert_eq!(folded_spans(&folds), [span(1, 3), span(5, 7)]);
}

#[test]
fn rendered_folds_keep_a_line_between_them() {
    let text = rope(NESTED);
    let mut folds = Folds::default();
    folds.close_all(&text, &[span(5, 7), span(0, 4)]);
    let folded = folds.folded();
    assert_eq!(folded.len(), 2);
    assert!(folded[0].last_line < folded[1].header_line);
    assert!(folded[0].end <= folded[1].header_start);
    for f in folded {
        assert!(f.header_line < f.last_line);
        assert_eq!(f.start, text.line_end_char_index(f.header_line));
        assert_eq!(f.end, text.line_to_char(f.last_line + 1));
        assert!(folds.is_closed(f.span()));
    }
}

#[test]
fn closing_ignores_the_order_of_spans() {
    let text = rope(NESTED);
    let mut a = Folds::default();
    let mut b = Folds::default();
    assert!(a.close_all(&text, &[span(1, 3), span(0, 4), span(5, 7), span(1, 3)]));
    assert!(b.close_all(&text, &[span(5, 7), span(0, 4), span(1, 3)]));
    assert_eq!(a.folded(), b.folded());
    for s in [span(0, 4), span(1, 3), span(5, 7), span(0, 1)] {
        assert_eq!(a.is_closed(s), b.is_closed(s));
    }
}

#[test]
fn closing_one_by_one_equals_closing_all() {
    let text = rope(NESTED);
    let spans = [span(0, 4), span(1, 3), span(0, 4)];
    let mut all = Folds::default();
    let changed_all = all.close_all(&text, &spans);
    let mut one = Folds::default();
    let mut changed_any = false;
    for s in spans {
        changed_any |= one.close(&text, s);
    }
    assert_eq!(changed_all, changed_any);
    assert!(changed_all);
    assert_eq!(all.folded(), one.folded());
    assert_eq!(all.is_closed(span(1, 3)), one.is_closed(span(1, 3)));
    // closing what is closed reports nothing
    assert!(!one.close_all(&text, &spans));
}

#[test]
fn opening_keeps_folds_belonging_to_the_text() {
    let text = rope(NESTED);
    let mut folds = Folds::default();
    folds.close_all(&text, &[span(0, 4), span(1, 3), span(5, 7)]);
    assert!(folds.open(span(0, 4)));
    let mut refreshed = folds.clone();
    refreshed.refresh(&text);
    assert_eq!(refreshed.folded(), folds.folded());
    assert!(folds.reveal_char(text.line_to_char(6)));
    let mut refreshed = folds.clone();
    refreshed.refresh(&text);
    assert_eq!(refreshed.folded(), folds.folded());
    assert!(folds.open_within(span(0, 8)));
    assert!(folds.is_empty());
}

#[test]
fn search_with_a_predicate() {
    let text = rope("aa ⌚aa \r\n aa");
    let folds = Folds::default();
    let is_space = |c: &char| c.is_whitespace();
    assert_eq!(
        find_nth_char(1, &text, is_space, 0, Direction::Forward, &folds),
        Some(2)
    );
    assert_eq!(
        find_nth_char(3, &text, is_space, 0, Direction::Forward, &folds),
        Some(7)
    );
    assert_eq!(
        find_nth_char(1, &text, is_space, 12, Direction::Backward, &folds),
        Some(9)
    );
}
