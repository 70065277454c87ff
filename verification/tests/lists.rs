use supermd::editor::blocks::{BlockInfo, BlockKind};
use supermd::editor::lists::{fence_bodies, fence_bodies_in, list_item, renumber, renumber_block, ListItem};


fn item(line: &str) -> ListItem {
    list_item(line).unwrap_or_else(|| panic!("{line:?} should parse"))
}

#[test]
fn bullets_continue_with_the_same_marker() {
    assert_eq!(item("- milk").next_marker, "- ");
    assert_eq!(item("* star").next_marker, "* ");
    assert_eq!(item("+ plus").next_marker, "+ ");
}

#[test]
fn numbers_increment_and_keep_their_delimiter() {
    assert_eq!(item("3. three").next_marker, "4. ");
    assert_eq!(item("9) nine").next_marker, "10) ");
    assert_eq!(item("1. one").marker_len, 3);
}

#[test]
fn tasks_continue_unchecked() {
    assert_eq!(item("- [x] done").next_marker, "- [ ] ");
    assert_eq!(item("- [ ] todo").next_marker, "- [ ] ");
    assert_eq!(item("- [X] loud").next_marker, "- [ ] ");
    assert_eq!(item("- [ ] todo").marker_len, 6);
}

#[test]
fn indent_is_measured_not_consumed() {
    let it = item("   - deep");
    assert_eq!(it.indent, 3);
    assert_eq!(it.marker_len, 2);
}

#[test]
fn empty_items_are_flagged() {
    assert!(item("- ").content_empty);
    assert!(item("  3. ").content_empty);
    assert!(item("- [ ] ").content_empty);
    assert!(!item("- x").content_empty);
    // Trailing spaces after a bare marker still count as empty.
    assert!(item("-   ").content_empty);
}

#[test]
fn indent_step_matches_commonmark_nesting() {
    assert_eq!(item("- b").indent_step, 2);
    assert_eq!(item("- [ ] t").indent_step, 2, "the box is content");
    assert_eq!(item("1. a").indent_step, 3);
    assert_eq!(item("10. a").indent_step, 4);
}

#[test]
fn non_lists_do_not_parse() {
    for line in ["hello", "-nospace", "1.nospace", "12345678901. huge", "", "  ", "> quote"] {
        assert_eq!(list_item(line), None, "{line:?}");
    }
}

/// A list edited in the middle reads "1. 2. 3. 3. 4." Renumbering
/// rewrites the run, keeping the first number the author chose.
#[test]
fn renumber_fixes_a_run_after_an_insertion() {
    let text = "1. one\n2. two\n2. inserted\n3. three\n";
    let out = renumber(text, 0..text.len()).expect("an ordered list");
    assert_eq!(out, "1. one\n2. two\n3. inserted\n4. three\n");
}

/// A list that starts at 5 keeps starting at 5.
#[test]
fn renumber_keeps_the_starting_number() {
    let text = "5. five\n5. six\n5. seven\n";
    let out = renumber(text, 0..text.len()).expect("an ordered list");
    assert_eq!(out, "5. five\n6. six\n7. seven\n");
}

/// Nested items renumber within their own level.
#[test]
fn renumber_treats_each_indent_level_separately() {
    let text = "1. a\n   1. x\n   1. y\n2. b\n";
    let out = renumber(text, 0..text.len()).expect("an ordered list");
    assert_eq!(out, "1. a\n   1. x\n   2. y\n2. b\n");
}

/// Bullets are left alone.
#[test]
fn renumber_ignores_an_unordered_list() {
    assert!(renumber("- a\n- b\n", 0..6).is_none());
}

/// Two textually separate ordered lists (a blank-line-and-paragraph
/// gap between them) keep their own counts — the second list's
/// deliberate restart at 1 is not a typo to fix.
#[test]
fn renumber_restarts_a_separate_list_after_a_paragraph() {
    let text = "1. one\n2. two\n\npara\n\n1. three\n2. four\n";
    let out = renumber(text, 0..text.len());
    // Already correctly numbered, so unchanged (still Some: there
    // are ordered items to renumber, it's just a no-op on them).
    assert_eq!(out.as_deref(), Some(text), "both lists keep restarting correctly");
}

/// Numbers inside a fenced code block are the user's literal text,
/// not a list: renumbering must not touch a single byte of them.
#[test]
fn renumber_leaves_a_fenced_code_block_alone() {
    let text = "1. Steps:\n   ```text\n   1. alpha\n   1. beta\n   ```\n2. Done\n";
    let out = renumber(text, 0..text.len()).expect("an ordered list");
    assert_eq!(out, text, "the fence body is verbatim and the outer list already counts right");
}

/// The outer list still renumbers across a fence it contains.
#[test]
fn renumber_counts_across_a_fence_inside_an_item() {
    let text = "1. Steps:\n   ```text\n   1. alpha\n   1. beta\n   ```\n1. Done\n";
    let out = renumber(text, 0..text.len()).expect("an ordered list");
    assert_eq!(
        out,
        "1. Steps:\n   ```text\n   1. alpha\n   1. beta\n   ```\n2. Done\n",
        "the item after the fence continues the run; the fence body is untouched"
    );
}

/// Same, but with no blank line between the two lists (an ordinary
/// paragraph line ends the run just as a blank line does).
#[test]
fn renumber_restarts_a_separate_list_after_a_bare_paragraph_line() {
    let text = "1. one\n2. two\npara\n1. three\n2. four\n";
    let out = renumber(text, 0..text.len());
    assert_eq!(out.as_deref(), Some(text), "the paragraph line ends the first run");
}

#[test]
fn renumber_block_returns_only_the_block() {
    let text = "intro\n3. a\n3. b\ntail\n";
    let out = renumber_block(text, 6..15).expect("an ordered list");
    assert_eq!(out, "3. a\n4. b");
}

#[test]
fn renumber_splices_the_block_back_between_untouched_text() {
    let text = "1) x\n1) y\n\n7. a\n7. b\n";
    let out = renumber(text, 11..text.len()).expect("an ordered list");
    assert_eq!(out, "1) x\n1) y\n\n7. a\n8. b\n");
}

#[test]
fn a_deeper_paragraph_line_keeps_the_outer_run() {
    let text = "1. a\n   note\n1. b\n";
    let out = renumber(text, 0..text.len()).expect("an ordered list");
    assert_eq!(out, "1. a\n   note\n2. b\n");
}

#[test]
fn a_bullet_inside_a_run_does_not_reset_it() {
    let text = "1. a\n- b\n1. c\n";
    let out = renumber(text, 0..text.len()).expect("an ordered list");
    assert_eq!(out, "1. a\n- b\n2. c\n");
}

#[test]
fn a_run_counts_past_nine_into_two_digits() {
    let text = "9. a\n9. b\n";
    let out = renumber(text, 0..text.len()).expect("an ordered list");
    assert_eq!(out, "9. a\n10. b\n");
}

#[test]
fn list_item_fields_for_a_numbered_task_like_line() {
    let it = list_item("  12) [x] y").expect("a list item");
    assert_eq!(it.indent, 2);
    assert_eq!(it.marker_len, 4);
    assert_eq!(it.next_marker, "13) ");
    assert_eq!(it.indent_step, 4);
    assert!(!it.content_empty);
}

#[test]
fn fence_bodies_run_between_the_delimiter_lines() {
    // "```\n1. x\n```\n| a |\n" : a closed fence, then a table
    let blocks = vec![
        BlockInfo {
            range: 0..12,
            kind: BlockKind::Fence { open_line: 0..3, close_line: Some(9..12) },
        },
        BlockInfo { range: 13..18, kind: BlockKind::Table },
        BlockInfo { range: 20..30, kind: BlockKind::Fence { open_line: 20..23, close_line: None } },
    ];
    assert_eq!(fence_bodies_in(&blocks), vec![3..9, 23..31]);
}

#[test]
fn fence_bodies_come_from_the_parsed_text() {
    let text = "1. Steps:\n   ```text\n   1. alpha\n   1. beta\n   ```\n2. Done\n";
    assert_eq!(fence_bodies(text), vec![20..44]);
    assert_eq!(fence_bodies("```\n1. x\n```\n"), vec![3..9]);
    assert!(fence_bodies("1. a\n2. b\n").is_empty());
}
