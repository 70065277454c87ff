use supermd::editor::buffer::{Buffer, Edit};

#[test]
fn from_text_round_trips() {
    let buf = Buffer::from_text("hello\nworld\n");
    assert_eq!(buf.text(), "hello\nworld\n");
    assert_eq!(buf.len_bytes(), 12);
}

#[test]
fn line_accessors() {
    let buf = Buffer::from_text("alpha\nbëta\n\ngamma");
    assert_eq!(buf.line_count(), 4);
    assert_eq!(buf.line_text(0), "alpha");
    assert_eq!(buf.line_text(1), "bëta");
    assert_eq!(buf.line_text(2), "");
    assert_eq!(buf.line_text(3), "gamma");
    assert_eq!(buf.line_range(0), 0..5);
    assert_eq!(buf.line_range(1), 6..11); // "bëta" is 5 bytes (ë = 2)
    assert_eq!(buf.line_range(2), 12..12);
    assert_eq!(buf.line_range(3), 13..18);
    assert_eq!(buf.line_of_byte(0), 0);
    assert_eq!(buf.line_of_byte(5), 0); // the newline belongs to line 0
    assert_eq!(buf.line_of_byte(6), 1);
    assert_eq!(buf.line_of_byte(18), 3); // end of buffer
}

#[test]
fn replace_inserts_deletes_and_reports_edit() {
    let mut buf = Buffer::from_text("hello world");
    let edit = buf.replace(5..5, ",");
    assert_eq!(buf.text(), "hello, world");
    assert_eq!(edit, Edit { range: 5..5, old: String::new(), new: ",".into() });

    let edit = buf.replace(0..6, "");
    assert_eq!(buf.text(), " world");
    assert_eq!(edit, Edit { range: 0..6, old: "hello,".into(), new: String::new() });

    let edit = buf.replace(1..6, "moon");
    assert_eq!(buf.text(), " moon");
    assert_eq!(edit.old, "world");
}

#[test]
fn slice_returns_byte_range() {
    let buf = Buffer::from_text("héllo");
    assert_eq!(buf.slice(0..3), "hé");
    assert_eq!(buf.slice(3..6), "llo");
}

#[test]
fn putting_the_old_text_back_restores_the_buffer() {
    let mut buf = Buffer::from_text("naïve text");
    let edit = buf.replace(2..4, "ii");
    assert_eq!(buf.text(), "naiive text");
    buf.replace(edit.range.start..edit.range.start + edit.new.len(), &edit.old);
    assert_eq!(buf.text(), "naïve text");
}

#[test]
fn a_byte_inside_a_character_stands_for_that_character() {
    let buf = Buffer::from_text("aé");
    // byte 2 is inside "é" (bytes 1..3)
    assert_eq!(buf.slice(0..2), "a");
    assert_eq!(buf.slice(2..3), "é");
}

#[test]
fn a_trailing_newline_opens_an_empty_last_line() {
    let buf = Buffer::from_text("ab\n");
    assert_eq!(buf.line_count(), 2);
    assert_eq!(buf.line_text(1), "");
    assert_eq!(buf.line_range(1), 3..3);
    assert_eq!(buf.line_of_byte(3), 1);
    assert_eq!(buf.line_of_byte(99), 1);
}
