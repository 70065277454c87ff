use supermd::editor::formatting::{cycle_heading, toggle_inline, toggle_link, toggle_quote, FmtEdit};


/// Apply an FmtEdit the way the editor will, returning the new text
/// and the selected slice.
fn apply(text: &str, edit: &FmtEdit) -> (String, String) {
    let mut out = String::new();
    out.push_str(&text[..edit.range.start]);
    out.push_str(&edit.replacement);
    out.push_str(&text[edit.range.end..]);
    let selected = out[edit.select.clone()].to_string();
    (out, selected)
}

// ── toggle_inline: wrap ──

#[test]
fn wrap_plain_selection_in_bold() {
    let edit = toggle_inline("say hello now", 4..9, "**");
    let (out, sel) = apply("say hello now", &edit);
    assert_eq!(out, "say **hello** now");
    assert_eq!(sel, "hello");
}

#[test]
fn wrap_keeps_edge_whitespace_outside_markers() {
    let edit = toggle_inline("say hello now", 3..10, "**");
    let (out, sel) = apply("say hello now", &edit);
    assert_eq!(out, "say **hello** now");
    assert_eq!(sel, "hello");
}

#[test]
fn wrap_empty_selection_places_cursor_between_markers() {
    let edit = toggle_inline("ab", 1..1, "*");
    let (out, _) = apply("ab", &edit);
    assert_eq!(out, "a**b");
    assert_eq!(edit.select, 2..2);
}

#[test]
fn wrap_with_code_and_strike_markers() {
    let (out, _) = apply("run it", &toggle_inline("run it", 0..3, "`"));
    assert_eq!(out, "`run` it");
    let (out, _) = apply("gone", &toggle_inline("gone", 0..4, "~~"));
    assert_eq!(out, "~~gone~~");
}

// ── toggle_inline: unwrap ──

#[test]
fn unwrap_when_markers_inside_selection() {
    let edit = toggle_inline("say **hello** now", 4..13, "**");
    let (out, sel) = apply("say **hello** now", &edit);
    assert_eq!(out, "say hello now");
    assert_eq!(sel, "hello");
}

#[test]
fn unwrap_when_markers_just_outside_selection() {
    let edit = toggle_inline("say **hello** now", 6..11, "**");
    let (out, sel) = apply("say **hello** now", &edit);
    assert_eq!(out, "say hello now");
    assert_eq!(sel, "hello");
}

#[test]
fn double_toggle_round_trips() {
    let text = "one two three";
    let e1 = toggle_inline(text, 4..7, "**");
    let (t1, _) = apply(text, &e1);
    let e2 = toggle_inline(&t1, e1.select.clone(), "**");
    let (t2, sel) = apply(&t1, &e2);
    assert_eq!(t2, text);
    assert_eq!(sel, "two");
}

#[test]
fn marker_only_selection_wraps_rather_than_panics() {
    // Selecting just "**" is a wrap of literal text, not an unwrap.
    let edit = toggle_inline("**", 0..2, "**");
    let (out, _) = apply("**", &edit);
    assert_eq!(out, "******");
}

// ── toggle_link ──

#[test]
fn link_wraps_selection_and_selects_url_placeholder() {
    let edit = toggle_link("see docs here", 4..8, );
    let (out, sel) = apply("see docs here", &edit);
    assert_eq!(out, "see [docs](url) here");
    assert_eq!(sel, "url");
}

#[test]
fn link_unwraps_full_link_selection() {
    let text = "see [docs](https://x.y) here";
    let edit = toggle_link(text, 4..23);
    let (out, sel) = apply(text, &edit);
    assert_eq!(out, "see docs here");
    assert_eq!(sel, "docs");
}

#[test]
fn link_with_empty_selection_inserts_skeleton() {
    let edit = toggle_link("ab", 1..1);
    let (out, sel) = apply("ab", &edit);
    assert_eq!(out, "a[](url)b");
    assert_eq!(sel, "url");
}

// ── cycle_heading ──

#[test]
fn heading_cycles_none_through_three_and_back() {
    let e = cycle_heading("title\nbody", 2..2);
    let (t1, _) = apply("title\nbody", &e);
    assert_eq!(t1, "# title\nbody");
    let e = cycle_heading(&t1, e.select.clone());
    let (t2, _) = apply(&t1, &e);
    assert_eq!(t2, "## title\nbody");
    let e = cycle_heading(&t2, e.select.clone());
    let (t3, _) = apply(&t2, &e);
    assert_eq!(t3, "### title\nbody");
    let e = cycle_heading(&t3, e.select.clone());
    let (t4, _) = apply(&t3, &e);
    assert_eq!(t4, "title\nbody");
}

#[test]
fn heading_acts_on_line_of_selection_start() {
    let text = "one\ntwo\nthree";
    let edit = cycle_heading(text, 5..6);
    let (out, _) = apply(text, &edit);
    assert_eq!(out, "one\n# two\nthree");
}

#[test]
fn heading_selection_shifts_with_prefix() {
    // Selection over "tw" stays over "tw" after the prefix lands.
    let text = "two";
    let edit = cycle_heading(text, 0..2);
    let (out, sel) = apply(text, &edit);
    assert_eq!(out, "# two");
    assert_eq!(sel, "tw");
}

#[test]
fn deep_manual_heading_resets_to_plain() {
    let edit = cycle_heading("##### deep", 7..7);
    let (out, _) = apply("##### deep", &edit);
    assert_eq!(out, "deep");
}

// ── toggle_quote ──

#[test]
fn quote_adds_prefix_to_touched_lines() {
    let text = "one\ntwo\nthree";
    let edit = toggle_quote(text, 1..6);
    let (out, sel) = apply(text, &edit);
    assert_eq!(out, "> one\n> two\nthree");
    assert_eq!(sel, "> one\n> two");
}

#[test]
fn quote_removes_prefix_when_all_lines_quoted() {
    let text = "> one\n> two";
    let edit = toggle_quote(text, 0..11);
    let (out, sel) = apply(text, &edit);
    assert_eq!(out, "one\ntwo");
    assert_eq!(sel, "one\ntwo");
}

#[test]
fn quote_cursor_only_quotes_its_line() {
    let text = "one\ntwo";
    let edit = toggle_quote(text, 5..5);
    let (out, _) = apply(text, &edit);
    assert_eq!(out, "one\n> two");
}

#[test]
fn quote_handles_bare_gt_lines() {
    let text = ">one\n> two";
    let edit = toggle_quote(text, 0..10);
    let (out, _) = apply(text, &edit);
    assert_eq!(out, "one\ntwo");
}

#[test]
fn mixed_lines_become_all_quoted() {
    let text = "> one\ntwo";
    let edit = toggle_quote(text, 0..9);
    let (out, _) = apply(text, &edit);
    assert_eq!(out, "> > one\n> two");
}

#[test]
fn all_whitespace_selection_collapses_in_place() {
    let edit = toggle_inline("a   b", 1..4, "**");
    assert_eq!(edit.range, 1..1);
    assert_eq!(edit.replacement, "****");
    assert_eq!(edit.select, 3..3);
}

#[test]
fn unicode_whitespace_is_trimmed_too() {
    // U+3000 IDEOGRAPHIC SPACE is three bytes of whitespace.
    let text = "x\u{3000}word\u{3000}y";
    let edit = toggle_inline(text, 1..11, "*");
    let (out, sel) = apply(text, &edit);
    assert_eq!(out, "x\u{3000}*word*\u{3000}y");
    assert_eq!(sel, "word");
}

#[test]
fn link_with_bracket_in_label_is_not_unwrapped() {
    let text = "[a[b](c)";
    let edit = toggle_link(text, 0..text.len());
    assert_eq!(edit.replacement, "[[a[b](c)](url)");
}

#[test]
fn heading_on_a_bare_hash_line_moves_to_level_two() {
    let edit = cycle_heading("#", 1..1);
    assert_eq!(edit.range, 0..1);
    assert_eq!(edit.replacement, "## ");
    assert_eq!(edit.select, 3..3);
}

#[test]
fn quote_drops_a_carriage_return_before_each_newline() {
    let text = "a\r\nb";
    let edit = toggle_quote(text, 0..4);
    assert_eq!(edit.replacement, "> a\n> b");
    assert_eq!(edit.range, 0..4);
}

#[test]
fn heading_cycle_of_four_gives_back_text_and_selection() {
    let before = "intro\nplain line\nend";
    let mut text = before.to_string();
    let mut sel = 8..11;
    let mut seen = Vec::new();
    for _ in 0..4 {
        let edit = cycle_heading(&text, sel.clone());
        let (out, _) = apply(&text, &edit);
        sel = edit.select.clone();
        text = out;
        seen.push(text.clone());
    }
    assert_eq!(seen[0], "intro\n# plain line\nend");
    assert_eq!(seen[1], "intro\n## plain line\nend");
    assert_eq!(seen[2], "intro\n### plain line\nend");
    assert_eq!(text, before);
    assert_eq!(sel, 8..11);
}

#[test]
fn link_then_unlink_the_whole_link_round_trips() {
    let before = "see  docs  here";
    let first = toggle_link(before, 3..11);
    let (linked, url) = apply(before, &first);
    assert_eq!(linked, "see  [docs](url)  here");
    assert_eq!(url, "url");
    let whole = first.range.start..first.range.start + first.replacement.len();
    let second = toggle_link(&linked, whole);
    let (back, label) = apply(&linked, &second);
    assert_eq!(back, before);
    assert_eq!(label, "docs");
}

#[test]
fn quote_then_unquote_the_block_round_trips() {
    let before = "intro\none\n> two\n\nthree\nend";
    let first = toggle_quote(before, 8..18);
    let (quoted, block) = apply(before, &first);
    assert_eq!(quoted, "intro\n> one\n> > two\n> \n> three\nend");
    assert_eq!(block, "> one\n> > two\n> \n> three");
    let second = toggle_quote(&quoted, first.select.clone());
    let (back, selected) = apply(&quoted, &second);
    assert_eq!(back, before);
    assert_eq!(second.select, first.range);
    assert_eq!(selected, "one\n> two\n\nthree");
}
