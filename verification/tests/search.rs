use helix_core::fold::Folds;
use helix_core::search::{find_nth_char, Direction};
use helix_core::text::Text;

#[test]
fn test_find_nth_char() {
    let text = Text::new("aa ⌚aa \r\n aa".chars().collect());
    let text = &text;

    // Forward direction
    assert_eq!(
        find_nth_char(1, text, 'a', 5, Direction::Forward, &Folds::default()),
        Some(5)
    );
    assert_eq!(
        find_nth_char(2, text, 'a', 5, Direction::Forward, &Folds::default()),
        Some(10)
    );
    assert_eq!(
        find_nth_char(3, text, 'a', 5, Direction::Forward, &Folds::default()),
        Some(11)
    );
    assert_eq!(
        find_nth_char(4, text, 'a', 5, Direction::Forward, &Folds::default()),
        None
    );

    // Backward direction
    assert_eq!(
        find_nth_char(1, text, 'a', 5, Direction::Backward, &Folds::default()),
        Some(4)
    );
    assert_eq!(
        find_nth_char(2, text, 'a', 5, Direction::Backward, &Folds::default()),
        Some(1)
    );
    assert_eq!(
        find_nth_char(3, text, 'a', 5, Direction::Backward, &Folds::default()),
        Some(0)
    );
    assert_eq!(
        find_nth_char(4, text, 'a', 5, Direction::Backward, &Folds::default()),
        None
    );

    // Edge cases
    assert_eq!(
        find_nth_char(0, text, 'a', 5, Direction::Forward, &Folds::default()),
        None
    ); // n = 0
    assert_eq!(
        find_nth_char(1, text, 'x', 5, Direction::Forward, &Folds::default()),
        None
    ); // Not found
    assert_eq!(
        find_nth_char(1, text, 'a', 20, Direction::Forward, &Folds::default()),
        None
    ); // Beyond text
    assert_eq!(
        find_nth_char(1, text, 'a', 0, Direction::Backward, &Folds::default()),
        None
    ); // At start going backward
}
