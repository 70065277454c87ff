use std::ops::Range;
use supermd::editor::blocks::{BlockInfo, BlockKind};
use supermd::editor::projection::{item_of_line, line_of_byte, project, Item};
use supermd::editor::projector::{discover_all, Claim, ImagePayload, Payload, TablePayload};


fn lines_of(src: &str) -> Vec<Range<usize>> {
    let mut out = Vec::new();
    let mut start = 0;
    for line in src.split('\n') {
        out.push(start..start + line.len());
        start += line.len() + 1;
    }
    out
}

fn table_claim(lines: &[Range<usize>], bytes: Range<usize>) -> (usize, Claim) {
    let first = line_of_byte(lines, bytes.start);
    let last = line_of_byte(lines, bytes.end.max(bytes.start + 1) - 1);
    (0, Claim { lines: first..last + 1, bytes, payload: Payload::Table(TablePayload) })
}

#[test]
fn untouched_claim_becomes_one_widget() {
    // lines: 0 "a", 1 "", 2..5 table rows, 5 "", 6 "b"
    let src = "a\n\n|h|\n|-|\n|1|\n\nb";
    let lines = lines_of(src);
    let claims = [table_claim(&lines, 3..15)];
    let items = project(&lines, &[], &claims, 0..0);
    assert_eq!(items.len(), 5); // a, blank, Widget, blank, b
    assert!(
        matches!(&items[2], Item::Widget { projector: 0, lines: l, .. } if *l == (2..5))
    );
    assert!(matches!(items[3], Item::Line(5)));
}

#[test]
fn touched_claim_dissolves() {
    let src = "a\n\n|h|\n|-|\n|1|\n\nb";
    let lines = lines_of(src);
    let claims = [table_claim(&lines, 3..15)];
    for sel in [3..3, 10..10, 15..15, 1..4] {
        let items = project(&lines, &[], &claims, sel);
        assert_eq!(items.len(), 7, "all lines emitted");
        assert!(items.iter().all(|i| matches!(i, Item::Line(_))));
    }
    // One-past the range does NOT touch.
    let items = project(&lines, &[], &claims, 16..16);
    assert_eq!(items.len(), 5);
}

#[test]
fn overlapping_claims_first_wins() {
    let src = "x\ny\nz";
    let lines = lines_of(src);
    let a = (0usize, Claim { lines: 0..2, bytes: 0..3, payload: Payload::Table(TablePayload) });
    let b = (1usize, Claim { lines: 1..3, bytes: 2..5, payload: Payload::Table(TablePayload) });
    let items = project(&lines, &[], &[a, b], 100..100);
    assert!(matches!(&items[0], Item::Widget { projector: 0, .. }));
    assert!(matches!(items[1], Item::Line(2))); // loser dropped entirely
    assert_eq!(items.len(), 2);
}

/// A fence keeps its delimiter lines whether or not the cursor is
/// inside it. They used to be omitted for a closed, untouched
/// fence, which hid the language tag — the one piece of information
/// the opening line carries — and left no way to see it but to
/// click into the block.
#[test]
fn a_fence_always_keeps_its_delimiter_lines() {
    let src = "```rust\nlet x = 1;\n```\ntail";
    let lines = lines_of(src);
    let blocks = [BlockInfo {
        range: 0..22,
        kind: BlockKind::Fence { open_line: 0..7, close_line: Some(19..22) },
    }];
    for selection in [100..100, 10..10] {
        let items = project(&lines, &blocks, &[], selection.clone());
        assert_eq!(
            items,
            vec![Item::Line(0), Item::Line(1), Item::Line(2), Item::Line(3)],
            "selection {selection:?}: every line, delimiters included"
        );
    }
}

#[test]
fn unclosed_fence_never_omits() {
    let src = "```rust\nbody";
    let lines = lines_of(src);
    let blocks = [BlockInfo {
        range: 0..12,
        kind: BlockKind::Fence { open_line: 0..7, close_line: None },
    }];
    let items = project(&lines, &blocks, &[], 100..100);
    assert_eq!(items.len(), 2);
}

#[test]
fn widget_identity_is_projector_and_lines_not_payload() {
    let w = |projector, lines: Range<usize>| Item::Widget {
        projector,
        lines,
        payload: Payload::Table(TablePayload),
    };
    assert_eq!(w(0, 2..5), w(0, 2..5)); // distinct payload Arcs still equal
    assert_ne!(w(0, 2..5), w(1, 2..5));
    assert_ne!(w(0, 2..5), w(0, 2..6));
    assert_ne!(w(0, 2..5), Item::Line(2));
}

#[test]
fn item_of_line_maps_emitted_consumed_and_omitted() {
    let src = "a\n\n|h|\n|-|\n|1|\n\nb";
    let lines = lines_of(src);
    let claims = [table_claim(&lines, 3..15)];
    let items = project(&lines, &[], &claims, 0..0);
    assert_eq!(item_of_line(&items, 0), 0);
    assert_eq!(item_of_line(&items, 3), 2); // inside widget -> widget item
    assert_eq!(item_of_line(&items, 6), 4);
    // A fence keeps every line now, so nothing is omitted and each
    // maps to its own item.
    let src2 = "```rust\nbody\n```";
    let lines2 = lines_of(src2);
    let blocks2 = [BlockInfo {
        range: 0..16,
        kind: BlockKind::Fence { open_line: 0..7, close_line: Some(13..16) },
    }];
    let items2 = project(&lines2, &blocks2, &[], 100..100);
    assert_eq!(items2, vec![Item::Line(0), Item::Line(1), Item::Line(2)]);
    assert_eq!(item_of_line(&items2, 0), 0);
    assert_eq!(item_of_line(&items2, 2), 2);
}

#[test]
fn discovery_claims_tables_then_images() {
    let src = "a\n\n|h|\n|-|\n|1|\n\n![x](p.png)\n\nb";
    let lines = lines_of(src);
    let blocks = vec![
        BlockInfo { range: 3..14, kind: BlockKind::Table },
        BlockInfo {
            range: 16..27,
            kind: BlockKind::Image { alt: "x".into(), dest: "p.png".into() },
        },
    ];
    let claims = discover_all(src, &blocks, &lines);
    assert_eq!(claims.len(), 2);
    assert_eq!(claims[0].0, 0);
    assert_eq!(claims[0].1.lines, 2..5);
    assert_eq!(claims[1].0, 1);
    assert_eq!(claims[1].1.lines, 6..7);
    match &claims[1].1.payload {
        Payload::Image(ImagePayload { dest, .. }) => assert_eq!(dest, "p.png"),
        _ => panic!("an image payload"),
    }
}

#[test]
fn line_of_byte_stops_at_the_first_later_line() {
    let lines = vec![0..1, 2..2, 3..6];
    assert_eq!(line_of_byte(&lines, 0), 0);
    assert_eq!(line_of_byte(&lines, 1), 0);
    assert_eq!(line_of_byte(&lines, 2), 1);
    assert_eq!(line_of_byte(&lines, 99), 2);
    assert_eq!(line_of_byte(&[], 5), 0);
}

#[test]
fn a_widget_past_the_last_line_still_ends_the_projection() {
    let lines = lines_of("x\ny");
    let c = (0usize, Claim { lines: 1..5, bytes: 2..3, payload: Payload::Table(TablePayload) });
    let items = project(&lines, &[], &[c], 100..100);
    assert_eq!(items.len(), 2);
    assert!(matches!(items[1], Item::Widget { projector: 0, .. }));
    assert_eq!(item_of_line(&items, 4), 1);
}
