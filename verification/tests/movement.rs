use supermd::editor::buffer::Buffer;
use supermd::editor::movement::{line_end, line_start, next_grapheme, next_word, prev_grapheme, prev_word};

fn buf(s: &str) -> Buffer {
    Buffer::from_text(s)
}

#[test]
fn grapheme_steps_within_line() {
    let b = buf("aé👍b");
    // bytes: a=1, é=2, 👍=4, b=1
    assert_eq!(next_grapheme(&b, 0), 1);
    assert_eq!(next_grapheme(&b, 1), 3);
    assert_eq!(next_grapheme(&b, 3), 7);
    assert_eq!(next_grapheme(&b, 7), 8);
    assert_eq!(next_grapheme(&b, 8), 8); // clamp at end
    assert_eq!(prev_grapheme(&b, 8), 7);
    assert_eq!(prev_grapheme(&b, 7), 3);
    assert_eq!(prev_grapheme(&b, 0), 0); // clamp at start
}

#[test]
fn grapheme_steps_across_newline() {
    let b = buf("ab\ncd");
    assert_eq!(next_grapheme(&b, 2), 3); // from end of line 0 onto line 1
    assert_eq!(prev_grapheme(&b, 3), 2);
}

#[test]
fn line_edges() {
    let b = buf("hello\nworld");
    assert_eq!(line_start(&b, 8), 6);
    assert_eq!(line_end(&b, 8), 11);
    assert_eq!(line_start(&b, 3), 0);
    assert_eq!(line_end(&b, 3), 5);
}

#[test]
fn a_combining_mark_stays_with_its_base() {
    // "e" + U+0301 is one grapheme of three bytes
    let b = buf("e\u{301}x");
    assert_eq!(next_grapheme(&b, 0), 3);
    assert_eq!(prev_grapheme(&b, 3), 0);
}

#[test]
fn offsets_past_the_end_clamp() {
    let b = buf("ab");
    assert_eq!(next_grapheme(&b, 9), 2);
    assert_eq!(line_start(&b, 9), 0);
    assert_eq!(line_end(&b, 9), 2);
}

#[test]
fn word_steps() {
    let b = buf("foo bar_baz  qux");
    assert_eq!(next_word(&b, 0), 3); // end of "foo"
    assert_eq!(next_word(&b, 3), 11); // end of "bar_baz"
    assert_eq!(next_word(&b, 11), 16); // end of "qux"
    assert_eq!(prev_word(&b, 16), 13); // start of "qux"
    assert_eq!(prev_word(&b, 13), 4); // start of "bar_baz"
    assert_eq!(prev_word(&b, 2), 0);
}

#[test]
fn next_word_without_following_word_clamps_to_end() {
    let b = buf("foo   ");
    assert_eq!(next_word(&b, 3), 6); // only whitespace remains
    assert_eq!(next_word(&b, 6), 6); // already at end
}

#[test]
fn word_steps_cross_lines() {
    let b = buf("foo\nbar");
    assert_eq!(next_word(&b, 3), 7); // from line end into next word
    assert_eq!(prev_word(&b, 4), 0); // from line start into previous word
}

#[test]
fn accented_words_are_words() {
    let b = buf("héllo, wörld");
    assert_eq!(next_word(&b, 0), 6);
    assert_eq!(prev_word(&b, 13), 8);
}
