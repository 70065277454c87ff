use supermd::editor::blocks::{blocks_from_events, line_containing, MdEvent};

#[test]
fn the_line_around_an_offset_excludes_its_newline() {
    let text = "ab\ncd\nef";
    assert_eq!(line_containing(text, 4), 3..5);
    assert_eq!(line_containing(text, 0), 0..2);
    assert_eq!(line_containing(text, 2), 0..2); // the newline ends line 0
    assert_eq!(line_containing(text, 8), 6..8);
}

#[test]
fn a_text_without_newlines_is_one_line() {
    assert_eq!(line_containing("héllo", 3), 0..6);
    assert_eq!(line_containing("", 0), 0..0);
}

#[test]
fn table_discovered_with_full_range() {
    let src = "a\n\n| h | i |\n| - | - |\n| 1 | 2 |\n\nb\n";
    let all = supermd::editor::blocks::blocks(src);
    let table = all.iter().find(|b| matches!(b.kind, supermd::editor::blocks::BlockKind::Table)).unwrap();
    assert_eq!(table.range.start, 3);
    assert!(src[table.range.clone()].contains("| 1 | 2 |"));
}

#[test]
fn whole_line_image_discovered() {
    let src = "para\n\n![alt text](img.png)\n\nafter\n";
    let all = supermd::editor::blocks::blocks(src);
    let img = all
        .iter()
        .find_map(|b| match &b.kind {
            supermd::editor::blocks::BlockKind::Image { alt, dest } => {
                Some((b.range.clone(), alt.clone(), dest.clone()))
            }
            _ => None,
        })
        .unwrap();
    assert_eq!(img.1, "alt text");
    assert_eq!(img.2, "img.png");
    assert_eq!(&src[img.0], "![alt text](img.png)");
}

#[test]
fn inline_image_is_not_a_block() {
    let src = "see ![a](b.png) here\n";
    assert!(!supermd::editor::blocks::blocks(src)
        .iter()
        .any(|b| matches!(b.kind, supermd::editor::blocks::BlockKind::Image { .. })));
}

#[test]
fn fence_block_with_delimiter_lines() {
    let src = "```rust\nlet x = 1;\n```\n";
    let all = supermd::editor::blocks::blocks(src);
    let fence = all
        .iter()
        .find_map(|b| match &b.kind {
            supermd::editor::blocks::BlockKind::Fence { open_line, close_line } => {
                Some((open_line.clone(), close_line.clone()))
            }
            _ => None,
        })
        .unwrap();
    assert_eq!(fence.0, 0..7);
    assert_eq!(fence.1, Some(19..22));
}

#[test]
fn unclosed_fence_has_no_close_line() {
    let src = "```rust\nlet x = 1;\n";
    let all = supermd::editor::blocks::blocks(src);
    let fence = all
        .iter()
        .find_map(|b| match &b.kind {
            supermd::editor::blocks::BlockKind::Fence { close_line, .. } => Some(close_line.clone()),
            _ => None,
        })
        .unwrap();
    assert_eq!(fence, None);
}

#[test]
fn events_with_ranges_off_the_text_are_passed_over() {
    let src = "| a |\n";
    let events = vec![MdEvent::TableStart(0..99), MdEvent::TableStart(0..6)];
    let found = blocks_from_events(src, &events);
    assert_eq!(found.len(), 1);
    assert_eq!(found[0].range, 0..5);
}
