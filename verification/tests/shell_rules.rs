use supermd::editor::{
    chain_save_hooks, click_follows_link, enrich_plan, find_prev_should_consume, gutter_cols,
    is_markdown,
};

#[test]
fn gutter_cols_counts_digits_of_last_line() {
    assert_eq!(gutter_cols(1), 1);
    assert_eq!(gutter_cols(9), 1);
    assert_eq!(gutter_cols(10), 2);
    assert_eq!(gutter_cols(9999), 4);
    assert_eq!(gutter_cols(0), 1);
}

#[test]
fn plain_click_follows_a_rendered_link_but_not_a_revealed_one() {
    // (modifier, on a link, link syntax revealed) -> follows?
    assert!(click_follows_link(false, true, false), "plain click on rendered link");
    assert!(click_follows_link(true, true, false), "cmd-click still follows");
    // Revealed means the cursor is inside it and the user is editing.
    assert!(!click_follows_link(false, true, true), "plain click edits a revealed link");
    assert!(click_follows_link(true, true, true), "cmd-click follows even when revealed");
    assert!(!click_follows_link(false, false, false), "not on a link");
}

#[test]
fn find_prev_only_consumes_the_key_when_the_find_bar_is_open() {
    assert!(!find_prev_should_consume(false), "closed find bar must propagate");
    assert!(find_prev_should_consume(true), "open find bar consumes the key");
}

#[test]
fn a_hundred_thousand_lines_need_six_columns() {
    assert_eq!(gutter_cols(100_000), 6);
    assert_eq!(gutter_cols(99_999), 5);
}

#[test]
fn hooks_chain_in_order_and_skip_failures() {
    let plugins = vec!["a".to_string(), "b".to_string(), "c".to_string()];
    let out = chain_save_hooks("x".into(), "f.md", &plugins, |p: &str, _: &str, doc: &str| match p {
        "a" => Ok(Some(format!("{doc}a"))),
        "b" => Err("boom".into()),
        _ => Ok(Some(format!("{doc}c"))),
    });
    assert_eq!(out, "xac");
    let none = chain_save_hooks("x".into(), "f.md", &plugins, |_: &str, _: &str, _: &str| Ok(None));
    assert_eq!(none, "x");
}

#[test]
fn hooks_see_the_path_and_no_plugins_leave_the_text() {
    let plugins = vec!["p".to_string()];
    let out = chain_save_hooks("doc".into(), "notes/a.md", &plugins, |_: &str, path: &str, doc: &str| {
        Ok(Some(format!("{doc}@{path}")))
    });
    assert_eq!(out, "doc@notes/a.md");
    let untouched = chain_save_hooks("doc".into(), "a.md", &[], |_: &str, _: &str, _: &str| {
        Ok(Some("never".to_string()))
    });
    assert_eq!(untouched, "doc");
}

#[test]
fn enrichment_applies_only_when_snapshot_matches() {
    assert_eq!(
        enrich_plan("abc URL def", 4..7, "abc URL def", "[T](URL)"),
        Some(("abc [T](URL) def".to_string(), 4..12))
    );
    // document moved since the paste → discard
    assert_eq!(enrich_plan("abc URL defX", 4..7, "abc URL def", "[T](URL)"), None);
}

#[test]
fn enrichment_counts_the_replacement_in_bytes() {
    assert_eq!(
        enrich_plan("é x", 3..4, "é x", "ü"),
        Some(("é ü".to_string(), 3..5))
    );
}

#[test]
fn markdown_is_known_by_its_extension() {
    assert!(is_markdown("notes/today.md"));
    assert!(is_markdown("a.markdown"));
    assert!(is_markdown("a.mdown"));
    assert!(is_markdown("page.mdx"));
    assert!(!is_markdown("code.rs"));
    assert!(!is_markdown("README"));
    // a dot file has no extension, and case matters
    assert!(!is_markdown(".md"));
    assert!(!is_markdown("SHOUT.MD"));
}
