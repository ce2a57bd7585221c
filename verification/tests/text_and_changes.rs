use helix_core::changes::{change, Assoc};
use helix_core::fold::{FoldSpan, Folds};
use helix_core::search::{find_nth_char, Direction};
use helix_core::text::Text;

fn rope(s: &str) -> Text {
    Text::new(s.chars().collect())
}

fn chars(t: &Text) -> String {
    (0..t.len_chars()).map(|i| t.char_at(i)).collect()
}

#[test]
fn lines_split_at_every_line_break() {
    let text = rope("a\r\nb\rc\nd\u{2028}e");
    assert_eq!(text.len_lines(), 5);
    assert_eq!(text.line_to_char(1), 3);
    assert_eq!(text.line_to_char(2), 5);
    assert_eq!(text.line_to_char(3), 7);
    assert_eq!(text.line_to_char(4), 9);
    assert_eq!(text.line_to_char(5), 10);
    // the CR of a CRLF is on the line it ends
    assert_eq!(text.char_to_line(1), 0);
    assert_eq!(text.char_to_line(2), 0);
    assert_eq!(text.char_to_line(3), 1);
    assert_eq!(text.char_to_line(10), 4);
    // a CRLF is one line ending
    assert_eq!(text.line_end_char_index(0), 1);
    assert_eq!(text.line_end_char_index(1), 4);
    assert_eq!(text.line_end_char_index(4), 10);
}

#[test]
fn a_final_line_break_starts_an_empty_line() {
    let text = rope("a\n");
    assert_eq!(text.len_lines(), 2);
    assert_eq!(text.line_to_char(1), 2);
    assert_eq!(text.char_to_line(2), 1);
    let empty = rope("");
    assert_eq!(empty.len_lines(), 1);
    assert_eq!(empty.char_to_line(0), 0);
}

#[test]
fn blank_lines_and_indentation() {
    let text = rope("  \t\n \u{3000}x\n\t y\n");
    assert!(text.is_blank_line(0));
    assert!(!text.is_blank_line(1));
    assert!(text.is_blank_line(3));
    assert_eq!(text.line_indent(2, 4), 5);
    assert_eq!(text.line_indent(2, 8), 9);
    assert_eq!(text.line_indent(1, 4), 1);
}

#[test]
fn byte_offsets_map_to_chars() {
    let text = rope("aé⌚b");
    assert_eq!(text.byte_to_char(0), 0);
    assert_eq!(text.byte_to_char(1), 1);
    assert_eq!(text.byte_to_char(2), 1);
    assert_eq!(text.byte_to_char(3), 2);
    assert_eq!(text.byte_to_char(5), 2);
    assert_eq!(text.byte_to_char(6), 3);
    assert_eq!(text.byte_to_char(7), 4);
}

#[test]
fn change_sets_apply_and_map() {
    let text = rope("hello world");
    let cs = change(
        &text,
        &vec![(0, 5, Some("bye".to_string())), (6, 6, Some("big ".to_string()))],
    );
    assert_eq!(cs.len(), 11);
    assert_eq!(cs.len_after(), 13);
    let new = cs.apply(&text).unwrap();
    assert_eq!(chars(&new), "bye big world");
    // a replaced range moves to the start, or the end, of its replacement
    assert_eq!(cs.map_pos(0, Assoc::Before), 0);
    assert_eq!(cs.map_pos(0, Assoc::After), 0);
    assert_eq!(cs.map_pos(2, Assoc::Before), 0);
    assert_eq!(cs.map_pos(2, Assoc::After), 3);
    // an insertion point moves before or after the inserted text
    assert_eq!(cs.map_pos(6, Assoc::Before), 4);
    assert_eq!(cs.map_pos(6, Assoc::After), 8);
    assert_eq!(cs.map_pos(11, Assoc::Before), 13);
    // a change set made for another text does not apply
    assert!(cs.apply(&rope("hello")).is_none());
}

#[test]
fn deletions_collapse_positions() {
    let text = rope("abcdef");
    let cs = change(&text, &vec![(1, 4, None)]);
    assert_eq!(chars(&cs.apply(&text).unwrap()), "aef");
    assert_eq!(cs.map_pos(2, Assoc::After), 1);
    assert_eq!(cs.map_pos(4, Assoc::After), 1);
    assert_eq!(cs.map_pos(5, Assoc::Before), 2);
}

#[test]
fn search_skips_hidden_text() {
    // chars: x0 \n1 a2 \n3 x4 \n5 x6 \n7, line 1 and 2 hidden by the fold of lines 0..=2
    let text = rope("x\na\nx\nx\n");
    let mut folds = Folds::default();
    folds.close(&text, FoldSpan::new(0, 2).unwrap());
    let fold = &folds.folded()[0];
    assert_eq!((fold.start, fold.end), (1, 6));
    // forward: the `x` on line 2 is hidden
    assert_eq!(
        find_nth_char(2, &text, 'x', 0, Direction::Forward, &folds),
        Some(6)
    );
    assert_eq!(
        find_nth_char(1, &text, 'a', 0, Direction::Forward, &folds),
        None
    );
    // starting inside the fold starts after it
    assert_eq!(
        find_nth_char(1, &text, 'x', 3, Direction::Forward, &folds),
        Some(6)
    );
    // backward: the hidden text is skipped, the header's line ending is found
    assert_eq!(
        find_nth_char(1, &text, '\n', 7, Direction::Backward, &folds),
        Some(1)
    );
    assert_eq!(
        find_nth_char(2, &text, '\n', 7, Direction::Backward, &folds),
        None
    );
    assert_eq!(
        find_nth_char(2, &text, 'x', 7, Direction::Backward, &folds),
        Some(0)
    );
    assert_eq!(
        find_nth_char(1, &text, 'x', 5, Direction::Backward, &folds),
        Some(0)
    );
}

#[test]
fn backward_search_never_lands_in_a_fold() {
    // chars: a0 \n1 b2 \n3 c4; the fold of lines 0..=2 hides b, its line ending and c
    let text = rope("a\nb\nc");
    let mut folds = Folds::default();
    folds.close(&text, FoldSpan::new(0, 2).unwrap());
    assert_eq!(
        find_nth_char(1, &text, 'c', 5, Direction::Backward, &folds),
        None
    );
    assert_eq!(
        find_nth_char(1, &text, 'a', 5, Direction::Backward, &folds),
        Some(0)
    );
    assert_eq!(
        find_nth_char(1, &text, '\n', 5, Direction::Backward, &folds),
        Some(1)
    );
}
