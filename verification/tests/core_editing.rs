use supermd::editor::editor_core::{EditorCore, Selection};

/// A monotonic clock reading, in nanoseconds.
fn now() -> u64 {
    5_000_000_000
}

fn t0() -> u64 {
    5_000_000_000
}

fn ms(n: u64) -> u64 {
    n * 1_000_000
}

#[test]
fn insert_at_cursor_advances_cursor() {
    let mut ed = EditorCore::new("world");
    ed.insert("hello ", now());
    assert_eq!(ed.buffer.text(), "hello world");
    assert_eq!(ed.selection, Selection::cursor(6));
}

#[test]
fn insert_replaces_selection() {
    let mut ed = EditorCore::new("hello world");
    ed.set_cursor(0);
    ed.select_to(5);
    ed.insert("goodbye", now());
    assert_eq!(ed.buffer.text(), "goodbye world");
    assert_eq!(ed.selection, Selection::cursor(7));
}

#[test]
fn backspace_deletes_grapheme_or_selection() {
    let mut ed = EditorCore::new("ab👍");
    ed.set_cursor(6);
    ed.backspace(now());
    assert_eq!(ed.buffer.text(), "ab");
    assert_eq!(ed.selection, Selection::cursor(2));

    let mut ed = EditorCore::new("hello world");
    ed.set_cursor(5);
    ed.select_to(11);
    ed.backspace(now());
    assert_eq!(ed.buffer.text(), "hello");
}

#[test]
fn delete_forward_deletes_next_grapheme() {
    let mut ed = EditorCore::new("a👍b");
    ed.set_cursor(1);
    ed.delete_forward(now());
    assert_eq!(ed.buffer.text(), "ab");
    assert_eq!(ed.selection, Selection::cursor(1));
}

#[test]
fn select_all_and_selected_text() {
    let mut ed = EditorCore::new("héllo");
    ed.select_all();
    assert_eq!(ed.selected_text(), "héllo");
    assert_eq!(ed.selection.range(), 0..6);
}

#[test]
fn undo_reverts_and_redo_reapplies() {
    let mut ed = EditorCore::new("abc");
    ed.set_cursor(3);
    ed.insert("d", t0());
    assert!(ed.undo());
    assert_eq!(ed.buffer.text(), "abc");
    assert_eq!(ed.selection, Selection::cursor(3));
    assert!(ed.redo());
    assert_eq!(ed.buffer.text(), "abcd");
    assert_eq!(ed.selection, Selection::cursor(4));
    assert!(!ed.redo());
}

#[test]
fn rapid_typing_coalesces_into_one_group() {
    let mut ed = EditorCore::new("");
    let start = t0();
    ed.insert("h", start);
    ed.insert("e", start + ms(100));
    ed.insert("y", start + ms(200));
    assert!(ed.undo());
    assert_eq!(ed.buffer.text(), "");
    assert!(!ed.undo());
}

#[test]
fn pause_breaks_group() {
    let mut ed = EditorCore::new("");
    let start = t0();
    ed.insert("hi", start);
    ed.insert(" there", start + ms(1500));
    ed.undo();
    assert_eq!(ed.buffer.text(), "hi");
    ed.undo();
    assert_eq!(ed.buffer.text(), "");
}

#[test]
fn kind_change_breaks_group() {
    let mut ed = EditorCore::new("");
    let start = t0();
    ed.insert("hey", start);
    ed.backspace(start + ms(50));
    ed.insert("y", start + ms(100));
    assert_eq!(ed.buffer.text(), "hey");
    ed.undo(); // undoes the trailing "y" insert
    assert_eq!(ed.buffer.text(), "he");
    ed.undo(); // undoes the backspace
    assert_eq!(ed.buffer.text(), "hey");
    ed.undo(); // undoes the initial insert
    assert_eq!(ed.buffer.text(), "");
}

#[test]
fn cursor_jump_breaks_group() {
    let mut ed = EditorCore::new("xx");
    let start = t0();
    ed.set_cursor(2);
    ed.insert("a", start);
    ed.set_cursor(0);
    ed.break_undo_group();
    ed.insert("b", start + ms(50));
    ed.undo();
    assert_eq!(ed.buffer.text(), "xxa");
}

#[test]
fn replace_range_edits_through_history() {
    let mut ed = EditorCore::new("- [x] done");
    ed.set_cursor(8);
    ed.replace_range(2..5, "[ ]", t0());
    assert_eq!(ed.buffer.text(), "- [ ] done");
    assert_eq!(ed.selection, Selection::cursor(5));
    assert!(ed.undo());
    assert_eq!(ed.buffer.text(), "- [x] done");
}

#[test]
fn newline_copies_leading_whitespace() {
    let mut ed = EditorCore::new("    let x = 1;");
    ed.set_cursor(14);
    ed.insert_newline_auto_indent(t0());
    assert_eq!(ed.buffer.text(), "    let x = 1;\n    ");
    assert_eq!(ed.selection, Selection::cursor(19));
}

#[test]
fn newline_mid_line_indents_and_carries_tail() {
    let mut ed = EditorCore::new("\tfoo(bar)");
    ed.set_cursor(5);
    ed.insert_newline_auto_indent(t0());
    assert_eq!(ed.buffer.text(), "\tfoo(\n\tbar)");
}

#[test]
fn newline_without_indent_is_plain() {
    let mut ed = EditorCore::new("plain");
    ed.set_cursor(5);
    ed.insert_newline_auto_indent(t0());
    assert_eq!(ed.buffer.text(), "plain\n");
}

#[test]
fn newline_indent_stops_at_cursor_column() {
    // Cursor inside the indentation: only the part left of the
    // cursor carries over.
    let mut ed = EditorCore::new("        x");
    ed.set_cursor(4);
    ed.insert_newline_auto_indent(t0());
    assert_eq!(ed.buffer.text(), "    \n        x");
}

#[test]
fn new_edit_clears_redo() {
    let mut ed = EditorCore::new("");
    ed.insert("a", t0());
    ed.undo();
    ed.insert("b", t0());
    assert!(!ed.redo());
    assert_eq!(ed.buffer.text(), "b");
}

#[test]
fn redo_after_undo_restores_text_and_history() {
    let mut ed = EditorCore::new("abc");
    ed.set_cursor(1);
    ed.insert("XY", t0());
    assert!(ed.undo());
    assert_eq!(ed.selection, Selection::cursor(1));
    assert!(ed.redo());
    assert_eq!(ed.buffer.text(), "aXYbc");
    assert_eq!(ed.selection, Selection::cursor(3));
    assert!(ed.undo());
    assert_eq!(ed.buffer.text(), "abc");
    assert!(!ed.undo());
}

#[test]
fn edits_exactly_one_window_apart_still_join() {
    let mut ed = EditorCore::new("");
    ed.insert("a", t0());
    ed.insert("b", t0() + ms(700));
    ed.insert("c", t0() + ms(1400) + 1);
    assert_eq!(ed.buffer.text(), "abc");
    ed.undo();
    assert_eq!(ed.buffer.text(), "ab");
    ed.undo();
    assert_eq!(ed.buffer.text(), "");
}

#[test]
fn a_clock_reading_before_the_last_edit_counts_as_no_time() {
    let mut ed = EditorCore::new("");
    ed.insert("a", t0());
    ed.insert("b", t0() - ms(5000));
    ed.undo();
    assert_eq!(ed.buffer.text(), "");
}

#[test]
fn backspace_at_a_line_start_joins_the_lines() {
    let mut ed = EditorCore::new("ab\ncd");
    ed.set_cursor(3);
    ed.backspace(t0());
    assert_eq!(ed.buffer.text(), "abcd");
    assert_eq!(ed.selection, Selection::cursor(2));
}

#[test]
fn deleting_at_the_edges_changes_nothing() {
    let mut ed = EditorCore::new("ab");
    ed.set_cursor(0);
    ed.backspace(t0());
    ed.set_cursor(2);
    ed.delete_forward(t0());
    assert_eq!(ed.buffer.text(), "ab");
    assert!(!ed.undo());
}

#[test]
fn cursor_positions_clamp_to_the_text() {
    let mut ed = EditorCore::new("abc");
    ed.set_cursor(99);
    assert_eq!(ed.selection, Selection::cursor(3));
    ed.set_cursor(1);
    ed.select_to(99);
    assert_eq!(ed.selection, Selection { anchor: 1, head: 3 });
    assert_eq!(ed.selected_text(), "bc");
}

#[test]
fn the_list_run_spans_the_paragraph_around_the_cursor() {
    let text = "intro\n\n1. a\n2. b\n3. c\n\nend";
    let mut ed = EditorCore::new(text);
    ed.set_cursor(14);
    let run = ed.list_run_around_cursor();
    assert_eq!(&text[run.clone()], "1. a\n2. b\n3. c");
    // whitespace-only lines bound the run too; the edges of the text do as well
    let text = "a\nb\n  \nc";
    let mut ed = EditorCore::new(text);
    ed.set_cursor(0);
    assert_eq!(&text[ed.list_run_around_cursor()], "a\nb");
    ed.set_cursor(text.len());
    assert_eq!(&text[ed.list_run_around_cursor()], "c");
}

#[test]
fn reindent_moves_the_line_and_the_cursor_as_one_step() {
    let mut ed = EditorCore::new("- a\n- b");
    ed.set_cursor(6);
    assert!(ed.reindent_line(1, 2, now()));
    assert_eq!(ed.buffer.text(), "- a\n  - b");
    assert_eq!(ed.selection, Selection { anchor: 8, head: 8 });
    assert!(ed.reindent_line(1, -2, now()));
    assert_eq!(ed.buffer.text(), "- a\n- b");
    assert_eq!(ed.selection, Selection { anchor: 6, head: 6 });
    ed.undo();
    assert_eq!(ed.buffer.text(), "- a\n  - b");
    // a missing line or an outdent past the end changes nothing
    assert!(!ed.reindent_line(7, 2, now()));
    assert!(!ed.reindent_line(1, -40, now()));
    assert_eq!(ed.buffer.text(), "- a\n  - b");
}
