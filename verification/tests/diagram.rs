use supermd::diagram::{svg_outcome, body_of_fence, diagram_font, to_svg, DiagramCache, DiagramKey, DiagramTheme, CACHE_CAP};

fn theme(background: &str, dark: bool) -> DiagramTheme {
    DiagramTheme {
        background: background.into(),
        surface: "#f5f5f5".into(),
        primary: "#3366cc".into(),
        text: "#222222".into(),
        muted: "#777777".into(),
        border: "#dddddd".into(),
        font_body: "Georgia".into(),
        dark,
    }
}

#[test]
fn theme_fingerprint_tracks_fields() {
    let a = theme("#ffffff", false);
    let b = theme("#1e1e1e", true);
    assert_ne!(a.fingerprint(), b.fingerprint());
    assert_eq!(a.fingerprint(), theme("#ffffff", false).fingerprint());
    assert_ne!(a.fingerprint(), theme("#ffffff", true).fingerprint());
}

#[test]
fn root_hash_separates_roots_and_collapses_none() {
    assert_eq!(DiagramKey::root(None), 0);
    assert_ne!(DiagramKey::root(Some("/vault/a")), 0);
    assert_ne!(DiagramKey::root(Some("/vault/a")), DiagramKey::root(Some("/vault/b")));
    assert_eq!(DiagramKey::root(Some("/vault/a")), DiagramKey::root(Some("/vault/a")));
}

#[test]
fn hash_str_is_deterministic_and_input_sensitive() {
    assert_eq!(DiagramKey::root(Some("flowchart LR")), DiagramKey::root(Some("flowchart LR")));
    assert_ne!(DiagramKey::root(Some("flowchart LR")), DiagramKey::root(Some("flowchart TD")));
}

#[test]
fn body_of_fence_slices_range() {
    let text = "```mermaid\nflowchart LR\n```\n";
    assert_eq!(body_of_fence(text, &(11..24)), "flowchart LR\n");
    // out-of-bounds and non-char-boundary ranges degrade to empty
    assert_eq!(body_of_fence("abc", &(0..99)), "");
    assert_eq!(body_of_fence("é", &(1..2)), "");
}

#[test]
fn real_font_family_passes_through_untranslated() {
    assert_eq!(diagram_font("Georgia"), "Georgia");
    assert_eq!(diagram_font(".SystemUIFont"), "Helvetica Neue, Helvetica, Arial, sans-serif");
    assert_eq!(diagram_font(""), "");
}

fn key(n: u64) -> DiagramKey {
    DiagramKey { source_hash: n, root_hash: 0, theme_fingerprint: 7, width_bucket: 640 }
}

#[test]
fn a_stored_diagram_is_found_again_and_replaced_in_place() {
    let mut cache: DiagramCache<&str> = DiagramCache::new();
    cache.insert(key(1), "pending");
    assert_eq!(cache.get(&key(1)), Some(&"pending"));
    cache.insert(key(1), "ready");
    assert_eq!(cache.get(&key(1)), Some(&"ready"));
    assert_eq!(cache.len(), 1);
    assert_eq!(cache.get(&key(2)), None);
}

#[test]
fn the_cache_drops_the_oldest_past_its_cap() {
    let mut cache: DiagramCache<u64> = DiagramCache::new();
    for n in 0..(CACHE_CAP as u64 + 1) {
        cache.insert(key(n), n);
    }
    assert_eq!(cache.len(), CACHE_CAP);
    assert_eq!(cache.get(&key(0)), None);
    assert_eq!(cache.get(&key(1)), Some(&1));
    assert_eq!(cache.get(&key(CACHE_CAP as u64)), Some(&(CACHE_CAP as u64)));
    cache.clear();
    assert_eq!(cache.len(), 0);
}

/// What the shell stores for a diagram, reduced to what these tests
/// look at.
#[derive(Debug, Clone, PartialEq)]
enum DiagramState {
    Pending,
    Failed(String),
}

#[test]
fn cache_evicts_oldest_beyond_cap() {
    let mut c = DiagramCache::default();
    for i in 0..130u64 {
        c.insert(
            DiagramKey { source_hash: i, root_hash: 0, theme_fingerprint: 0, width_bucket: 704 },
            DiagramState::Pending,
        );
    }
    assert!(c.len() <= 128);
    assert!(c
        .get(&DiagramKey { source_hash: 0, root_hash: 0, theme_fingerprint: 0, width_bucket: 704 })
        .is_none());
    assert!(c
        .get(&DiagramKey { source_hash: 129, root_hash: 0, theme_fingerprint: 0, width_bucket: 704 })
        .is_some());
}

#[test]
fn reinserting_key_updates_state_without_duplicating_order() {
    let mut c = DiagramCache::default();
    let key = DiagramKey { source_hash: 7, root_hash: 0, theme_fingerprint: 0, width_bucket: 704 };
    c.insert(key.clone(), DiagramState::Pending);
    c.insert(key.clone(), DiagramState::Failed("boom".into()));
    assert_eq!(c.len(), 1);
    let Some(DiagramState::Failed(msg)) = c.get(&key) else { panic!("expected Failed") };
    assert_eq!(msg, "boom");
    // The re-insert must not have queued a second eviction entry:
    // fill up to exactly CACHE_CAP distinct keys -- nothing evicts,
    // so the original key must survive.
    for i in 100..227u64 {
        c.insert(
            DiagramKey { source_hash: i, root_hash: 0, theme_fingerprint: 0, width_bucket: 704 },
            DiagramState::Pending,
        );
    }
    assert_eq!(c.len(), 128);
    assert!(c.get(&key).is_some(), "duplicate order entry caused premature eviction");
}

#[test]
fn the_site_config_carries_the_palette_and_turns_html_labels_off() {
    let t = theme("#fafafa", false);
    let v: serde_json::Value = serde_json::from_str(&t.site_config()).unwrap();
    assert_eq!(v["theme"], "base");
    assert_eq!(v["htmlLabels"], false);
    assert_eq!(v["flowchart"]["htmlLabels"], false);
    assert_eq!(v["fontFamily"], t.font_body.as_str());
    assert_eq!(v["themeVariables"]["background"], "#fafafa");
    assert_eq!(v["themeVariables"]["darkMode"], false);
}

#[test]
fn a_font_name_with_quotes_stays_valid_json() {
    let mut t = theme("#000000", true);
    t.font_body = "My \"Odd\" Font\\".into();
    let v: serde_json::Value = serde_json::from_str(&t.site_config()).unwrap();
    assert_eq!(v["fontFamily"], "My \"Odd\" Font\\");
    assert_eq!(v["themeVariables"]["darkMode"], true);
}

#[test]
fn flowchart_renders_to_themed_svg_without_html_labels() {
    let t = theme("#fdfdfd", false);
    let svg = to_svg("flowchart LR\n  a[Start] --> b[End]\n", &t).unwrap();
    assert!(svg.contains("Start") && svg.contains("End"));
    assert!(svg.contains(&t.background), "canvas not themed");
    assert!(!svg.contains("foreignObject"), "HTML labels leaked through");
}

#[test]
fn bad_source_reports_error() {
    let t = theme("#fdfdfd", false);
    assert!(to_svg("not_a_diagram_type_xyz\n  a --> b", &t).is_err());
}

#[test]
fn empty_source_reports_detection_error() {
    let t = theme("#fdfdfd", false);
    let err = to_svg("", &t).unwrap_err();
    assert!(err.contains("No diagram type detected"), "unexpected error: {err}");
}

#[test]
fn render_outcomes_become_svg_or_message() {
    assert_eq!(svg_outcome(Ok(Some("<svg/>".to_string()))), Ok("<svg/>".to_string()));
    assert_eq!(svg_outcome(Ok(None)), Err("no mermaid diagram detected".to_string()));
    assert_eq!(svg_outcome(Err("parse error".to_string())), Err("parse error".to_string()));
}

#[test]
fn font_names_are_escaped_as_json_strings() {
    let mut t = theme("#ffffff", false);
    t.font_body = "A \"b\"\\\n\t\u{1}é".into();
    let cfg = t.site_config();
    assert!(
        cfg.contains("\"fontFamily\":\"A \\\"b\\\"\\\\\\n\\t\\u0001é\""),
        "escaped font family in {cfg}"
    );
}
