use eui_client::edit::{line_bounds, next_char, prev_char, word_left, word_right};

#[test]
fn a_caret_steps_over_whole_characters() {
    let s = "aé€😀b";
    // a=1 byte, é=2, €=3, 😀=4, b=1
    assert_eq!(next_char(s, 0), 1);
    assert_eq!(next_char(s, 1), 3);
    assert_eq!(next_char(s, 3), 6);
    assert_eq!(next_char(s, 6), 10);
    assert_eq!(next_char(s, 10), 11);
    assert_eq!(next_char(s, 11), 11);
    assert_eq!(next_char(s, 99), 11);
    assert_eq!(prev_char(s, 11), 10);
    assert_eq!(prev_char(s, 10), 6);
    assert_eq!(prev_char(s, 6), 3);
    assert_eq!(prev_char(s, 3), 1);
    assert_eq!(prev_char(s, 1), 0);
    assert_eq!(prev_char(s, 0), 0);
    assert_eq!(prev_char(s, 99), 10);
}

#[test]
fn stepping_on_and_back_returns_the_caret() {
    let s = "héllo wörld";
    let mut at = 0;
    while at < s.len() {
        let on = next_char(s, at);
        assert!(on > at);
        assert_eq!(prev_char(s, on), at);
        at = on;
    }
}

#[test]
fn a_word_is_left_over_spaces_then_letters() {
    let s = "one two  three";
    assert_eq!(word_left(s, s.len()), 9);
    assert_eq!(word_left(s, 9), 4);
    assert_eq!(word_left(s, 8), 4);
    assert_eq!(word_left(s, 4), 0);
    assert_eq!(word_left(s, 0), 0);
    assert_eq!(word_right(s, 0), 4);
    assert_eq!(word_right(s, 4), 9);
    assert_eq!(word_right(s, 5), 9);
    assert_eq!(word_right(s, 9), s.len());
    assert_eq!(word_right(s, 100), s.len());
}

#[test]
fn unicode_spaces_part_words_too() {
    // U+3000 IDEOGRAPHIC SPACE is three bytes.
    let s = "ab\u{3000}cd";
    assert_eq!(word_right(s, 0), 5);
    assert_eq!(word_left(s, 7), 5);
    assert_eq!(word_left(s, 5), 0);
}

#[test]
fn the_line_holds_the_caret() {
    let s = "first\nsecond line\nthird";
    assert_eq!(line_bounds(s, 0), (0, 5));
    assert_eq!(line_bounds(s, 5), (0, 5));
    assert_eq!(line_bounds(s, 6), (6, 17));
    assert_eq!(line_bounds(s, 10), (6, 17));
    assert_eq!(line_bounds(s, 18), (18, 23));
    assert_eq!(line_bounds(s, 99), (18, 23));
    assert_eq!(line_bounds("", 0), (0, 0));
}
