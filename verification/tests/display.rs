use std::ops::Range;

use supermd::editor::display::{
    disp_to_src, display_line, leading_delim, src_to_disp, trailing_delim, DisplayLine, Seg, SegKind,
};
use supermd::editor::spans::{StyleKind, StyleSpan};


fn span(range: Range<usize>, kind: StyleKind) -> StyleSpan {
    StyleSpan { range, kind }
}

#[test]
fn strong_markers_hide_when_cursor_elsewhere() {
    let dl = display_line("a **bold** b", 0, &[span(2..10, StyleKind::Strong)], 0..0);
    assert_eq!(dl.text, "a bold b");
}

#[test]
fn strong_reveals_when_selection_touches() {
    for sel in [2..2, 5..5, 10..10, 1..3] {
        let dl = display_line("a **bold** b", 0, &[span(2..10, StyleKind::Strong)], sel);
        assert_eq!(dl.text, "a **bold** b");
    }
}

#[test]
fn cursor_one_past_end_hides() {
    let dl = display_line("a **bold** b", 0, &[span(2..10, StyleKind::Strong)], 11..11);
    assert_eq!(dl.text, "a bold b");
}

#[test]
fn underscore_emphasis_and_strike_and_code() {
    let dl = display_line(
        "_it_ ~~no~~ ``x``",
        0,
        &[
            span(0..4, StyleKind::Emphasis),
            span(5..11, StyleKind::Strikethrough),
            span(12..17, StyleKind::InlineCode),
        ],
        100..100,
    );
    assert_eq!(dl.text, "it no x");
}

#[test]
fn mapping_around_hidden_segments() {
    // "a **bold** b" -> "a bold b"
    let dl = display_line("a **bold** b", 0, &[span(2..10, StyleKind::Strong)], 0..0);
    assert_eq!(src_to_disp(&dl, 0), 0);
    assert_eq!(src_to_disp(&dl, 2), 2); // hidden ** start snaps
    assert_eq!(src_to_disp(&dl, 3), 2); // inside hidden
    assert_eq!(src_to_disp(&dl, 4), 2); // 'b' of bold
    assert_eq!(src_to_disp(&dl, 8), 6); // hidden closing
    assert_eq!(src_to_disp(&dl, 11), 7); // ' ' after
    assert_eq!(disp_to_src(&dl, 2), 4); // 'b' of bold, exact verbatim
    assert_eq!(disp_to_src(&dl, 6), 8);
    assert_eq!(disp_to_src(&dl, 7), 11);
}

#[test]
fn round_trip_for_visible_bytes() {
    let line = "x **b** `c` y";
    let spans = [
        span(2..7, StyleKind::Strong),
        span(8..11, StyleKind::InlineCode),
    ];
    let dl = display_line(line, 0, &spans, 100..100);
    // Round trip holds for every verbatim byte EXCEPT the single byte
    // immediately following a hidden/replaced segment: that display
    // boundary is shared with the marker and resolves to the marker's
    // content side by bias (one display offset cannot invert to two
    // source offsets).
    let mut prev_kind: Option<SegKind> = None;
    for seg in &dl.segs {
        if seg.kind == SegKind::Verbatim {
            for src in seg.src.clone() {
                let ambiguous = src == seg.src.start
                    && !matches!(prev_kind, None | Some(SegKind::Verbatim));
                if !ambiguous {
                    assert_eq!(
                        disp_to_src(&dl, src_to_disp(&dl, src)),
                        src,
                        "byte {src}"
                    );
                }
            }
        }
        prev_kind = Some(seg.kind);
    }
}

#[test]
fn cross_line_span_hides_only_local_delimiter() {
    // Simulates line 2 of "**bold\ntext**": span extends before this line.
    let dl = display_line("text**", 100, &[span(90..106, StyleKind::Strong)], 0..0);
    assert_eq!(dl.text, "text");
    // And line 1: only the leading delimiter is local.
    let dl = display_line("**bold", 84, &[span(84..100, StyleKind::Strong)], 0..0);
    assert_eq!(dl.text, "bold");
}

#[test]
fn bullet_replacement_and_mapping() {
    let dl = display_line("- item", 0, &[span(0..2, StyleKind::ListMarker)], 100..100);
    assert_eq!(dl.text, "• item"); // "• " is 4 bytes
    assert_eq!(src_to_disp(&dl, 0), 0);
    assert_eq!(src_to_disp(&dl, 1), 4); // interior of replacement -> disp end
    assert_eq!(src_to_disp(&dl, 2), 4);
    assert_eq!(disp_to_src(&dl, 0), 0);
    assert_eq!(disp_to_src(&dl, 2), 2); // inside bullet glyph -> content start
    assert_eq!(disp_to_src(&dl, 4), 2);
}

#[test]
fn bullet_reveals_with_cursor_in_marker() {
    let dl = display_line("- item", 0, &[span(0..2, StyleKind::ListMarker)], 1..1);
    assert_eq!(dl.text, "- item");
}

#[test]
fn ordered_marker_never_transforms() {
    let dl = display_line("1. item", 0, &[span(0..3, StyleKind::ListMarker)], 100..100);
    assert_eq!(dl.text, "1. item");
}

#[test]
fn quote_marker_becomes_bar() {
    let dl = display_line("> quoted", 0, &[span(0..1, StyleKind::QuoteMarker)], 100..100);
    assert_eq!(dl.text, "▍ quoted");
}

#[test]
fn heading_hashes_hide_when_cursor_off_line() {
    let dl = display_line("## Title", 0, &[span(0..8, StyleKind::Heading(2))], 100..100);
    assert_eq!(dl.text, "Title");
    // Cursor anywhere on the line (span covers it) reveals.
    let dl = display_line("## Title", 0, &[span(0..8, StyleKind::Heading(2))], 5..5);
    assert_eq!(dl.text, "## Title");
}

#[test]
fn link_collapses_to_inner_text() {
    // "see [zed](https://zed.dev) now" — Link span 4..26
    let dl = display_line(
        "see [zed](https://zed.dev) now",
        0,
        &[span(4..26, StyleKind::Link)],
        100..100,
    );
    assert_eq!(dl.text, "see zed now");
}

#[test]
fn link_reveals_on_touch() {
    let dl = display_line(
        "see [zed](https://zed.dev) now",
        0,
        &[span(4..26, StyleKind::Link)],
        8..8,
    );
    assert_eq!(dl.text, "see [zed](https://zed.dev) now");
}

#[test]
fn nested_brackets_in_link_text() {
    // "[a[b]c](u)" span 0..10 -> inner "a[b]c"
    let dl = display_line("[a[b]c](u)", 0, &[span(0..10, StyleKind::Link)], 100..100);
    assert_eq!(dl.text, "a[b]c");
}

#[test]
fn unscannable_link_stays_visible() {
    // Span deliberately not matching [text](dest) shape.
    let dl = display_line("<https://x.y>", 0, &[span(0..13, StyleKind::Link)], 100..100);
    assert_eq!(dl.text, "<https://x.y>");
}

#[test]
fn overlapping_directives_first_wins() {
    // Two spans claiming overlapping delimiter bytes: the second's
    // conflicting directive is dropped, output stays consistent.
    // (Synthetic — real pulldown spans nest without delimiter overlap.)
    let spans = [
        span(0..7, StyleKind::Strong),
        span(1..6, StyleKind::Emphasis),
    ];
    let dl = display_line("***it***", 0, &spans, 100..100);
    assert_eq!(dl.text, "*it*");
    for seg in &dl.segs {
        if seg.kind == SegKind::Verbatim {
            for src in seg.src.clone() {
                if src != seg.src.start {
                    assert_eq!(disp_to_src(&dl, src_to_disp(&dl, src)), src);
                }
            }
        }
    }
}

#[test]
fn checkbox_replacement_and_toggle_payload() {
    let src = "- [x] done";
    let spans = [
        span(0..2, StyleKind::ListMarker),
        span(2..5, StyleKind::TaskMarker(true)),
    ];
    let dl = display_line(src, 0, &spans, 100..100);
    assert_eq!(dl.text, "• ✓ done");
    let seg = dl.segs.iter().find(|s| s.toggle.is_some()).unwrap();
    assert_eq!(seg.toggle, Some(true));
    assert_eq!(seg.src, 2..5);
    // Cursor inside the checkbox reveals the TaskMarker span only;
    // the untouched ListMarker span keeps its bullet (span-level
    // reveal, per the Phase 3 rule).
    let dl = display_line(src, 0, &spans, 3..3);
    assert_eq!(dl.text, "• [x] done");
    // Touching the list marker as well reveals everything.
    let dl = display_line(src, 0, &spans, 1..3);
    assert_eq!(dl.text, "- [x] done");
}

#[test]
fn unchecked_checkbox_glyph() {
    let src = "- [ ] todo";
    let spans = [
        span(0..2, StyleKind::ListMarker),
        span(2..5, StyleKind::TaskMarker(false)),
    ];
    let dl = display_line(src, 0, &spans, 100..100);
    assert_eq!(dl.text, "• ○ todo");
    assert_eq!(dl.segs.iter().find_map(|s| s.toggle), Some(false));
}

#[test]
fn spans_without_delimiters_hide_nothing() {
    // Synthetic spans placed over text with no marker characters:
    // both delimiter scans find zero bytes, so nothing hides.
    for kind in [StyleKind::Strong, StyleKind::Emphasis, StyleKind::Strikethrough] {
        let dl = display_line("abc", 0, &[span(0..3, kind)], 100..100);
        assert_eq!(dl.text, "abc");
        assert_eq!(dl.segs.len(), 1);
        assert_eq!(dl.segs[0].kind, SegKind::Verbatim);
    }
}

#[test]
fn delim_scans_default_to_zero_for_non_inline_kinds() {
    // Kinds outside the inline family have no delimiter bytes.
    assert_eq!(leading_delim(&StyleKind::Link, "[x](y)", 0), 0);
    assert_eq!(trailing_delim(&StyleKind::Link, "[x](y)", 6), 0);
}

#[test]
fn spans_entirely_off_line_are_ignored() {
    // Span ends before this line starts.
    let dl = display_line("**x**", 100, &[span(0..5, StyleKind::Strong)], 50..50);
    assert_eq!(dl.text, "**x**");
    // Span starts after this line ends.
    let dl = display_line("**x**", 100, &[span(200..205, StyleKind::Strong)], 50..50);
    assert_eq!(dl.text, "**x**");
}

#[test]
fn link_span_crossing_lines_stays_visible() {
    // A Link span that starts on an earlier line never collapses:
    // the transform needs both ends on the same line.
    let dl = display_line("tail)", 100, &[span(90..105, StyleKind::Link)], 0..0);
    assert_eq!(dl.text, "tail)");
}

#[test]
fn heading_span_without_leading_hashes_stays_visible() {
    // Setext-style heading: the span carries Heading but the line
    // has no # prefix, so there is nothing to hide.
    let dl = display_line("Title", 0, &[span(0..5, StyleKind::Heading(1))], 100..100);
    assert_eq!(dl.text, "Title");
    // Seven hashes is not a heading prefix either.
    let dl =
        display_line("####### x", 0, &[span(0..9, StyleKind::Heading(6))], 100..100);
    assert_eq!(dl.text, "####### x");
}

#[test]
fn marker_spans_crossing_line_start_do_nothing() {
    // Synthetic list/task/quote markers straddling the line start:
    // replacements require both ends on the line.
    for kind in [
        StyleKind::ListMarker,
        StyleKind::TaskMarker(true),
        StyleKind::QuoteMarker,
    ] {
        let dl = display_line("- item", 100, &[span(98..102, kind)], 0..0);
        assert_eq!(dl.text, "- item");
    }
}

#[test]
fn structural_span_kinds_pass_through() {
    // Kinds the display transform does not handle leave the line as-is.
    let dl = display_line("code", 0, &[span(0..4, StyleKind::FenceContent)], 100..100);
    assert_eq!(dl.text, "code");
    let dl = display_line("code", 0, &[span(0..4, StyleKind::Syntax(3))], 100..100);
    assert_eq!(dl.text, "code");
}

#[test]
fn malformed_link_shapes_stay_visible() {
    // "]" is the last byte: no "(" can follow.
    let dl = display_line("[abc]", 0, &[span(0..5, StyleKind::Link)], 100..100);
    assert_eq!(dl.text, "[abc]");
    // Unterminated destination.
    let dl = display_line("[a](b", 0, &[span(0..5, StyleKind::Link)], 100..100);
    assert_eq!(dl.text, "[a](b");
    // Trailing bytes after the destination close.
    let dl = display_line("[a](b)c", 0, &[span(0..7, StyleKind::Link)], 100..100);
    assert_eq!(dl.text, "[a](b)c");
}

#[test]
fn nested_parens_in_link_dest() {
    // Balanced parens inside the destination still scan.
    let dl = display_line("[a](b(c))", 0, &[span(0..9, StyleKind::Link)], 100..100);
    assert_eq!(dl.text, "a");
}

#[test]
fn empty_line_gets_anchor_segment() {
    let dl = display_line("", 5, &[], 0..0);
    assert_eq!(dl.text, "");
    assert_eq!(
        dl.segs,
        vec![Seg { src: 5..5, disp: 0..0, kind: SegKind::Verbatim, toggle: None }]
    );
    assert_eq!(src_to_disp(&dl, 5), 0);
    assert_eq!(disp_to_src(&dl, 0), 5);
}

#[test]
fn mapping_clamps_out_of_range_offsets() {
    let dl = display_line("plain text", 50, &[], 0..0);
    // Source offset before the line snaps to display start.
    assert_eq!(src_to_disp(&dl, 10), 0);
    // Source offset past the line snaps to display end.
    assert_eq!(src_to_disp(&dl, 1000), dl.text.len());
    // Display offset past the text snaps to the line's source end.
    assert_eq!(disp_to_src(&dl, 1000), 60);
}

#[test]
fn disp_to_src_past_replacement_reaches_following_text() {
    // "- item" -> "• item"; a display offset inside "item" walks
    // past the replacement segment into the verbatim tail.
    let dl = display_line("- item", 0, &[span(0..2, StyleKind::ListMarker)], 100..100);
    assert_eq!(disp_to_src(&dl, 5), 3); // 't' -> src byte 3
}

#[test]
fn disp_to_src_on_sparse_or_empty_segment_maps() {
    // Hand-built maps (valid inputs to the pub API): a display gap
    // snaps to the next segment's source start, and a map with no
    // segments resolves to offset 0.
    let sparse = DisplayLine {
        text: "ab cd".into(),
        segs: vec![
            Seg { src: 0..2, disp: 0..2, kind: SegKind::Verbatim, toggle: None },
            Seg { src: 10..12, disp: 4..6, kind: SegKind::Verbatim, toggle: None },
        ],
    };
    assert_eq!(disp_to_src(&sparse, 3), 10);
    // At the first segment's display end, that segment's source end
    // wins over the gap's snap target.
    assert_eq!(disp_to_src(&sparse, 2), 2);
    let empty = DisplayLine { text: String::new(), segs: Vec::new() };
    assert_eq!(disp_to_src(&empty, 0), 0);
}

#[test]
fn no_spans_passthrough_identity() {
    let dl = display_line("plain text", 50, &[], 0..0);
    assert_eq!(dl.text, "plain text");
    assert_eq!(src_to_disp(&dl, 53), 3);
    assert_eq!(disp_to_src(&dl, 3), 53);
}

#[test]
fn segments_tile_the_line_and_the_display_text() {
    let line = "- [x] a **bold** [l](u) b";
    let spans = [
        span(100..101, StyleKind::ListMarker),
        span(102..105, StyleKind::TaskMarker(true)),
        span(108..116, StyleKind::Strong),
        span(117..123, StyleKind::Link),
    ];
    let dl = display_line(line, 100, &spans, 0..0);
    let segs = &dl.segs;
    assert_eq!(segs[0].src.start, 100);
    assert_eq!(segs[0].disp.start, 0);
    for w in segs.windows(2) {
        assert_eq!(w[0].src.end, w[1].src.start);
        assert_eq!(w[0].disp.end, w[1].disp.start);
    }
    for seg in segs {
        match seg.kind {
            SegKind::Verbatim => assert_eq!(
                &dl.text[seg.disp.clone()],
                &line[seg.src.start - 100..seg.src.end - 100]
            ),
            SegKind::Hidden(_) => assert!(seg.disp.is_empty()),
            _ => {}
        }
    }
    let last = segs.last().unwrap();
    assert_eq!(last.src.end, 100 + line.len());
    assert_eq!(last.disp.end, dl.text.len());
    let mut prev = 0;
    for src in 100..=100 + line.len() {
        let d = src_to_disp(&dl, src);
        assert!(prev <= d && d <= dl.text.len(), "monotone at {src}");
        prev = d;
    }
}
