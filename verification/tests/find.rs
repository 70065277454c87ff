use supermd::editor::find::find_matches;


#[test]
fn case_insensitive_by_default() {
    assert_eq!(find_matches("Foo foo FOO", "foo"), vec![0..3, 4..7, 8..11]);
}

#[test]
fn smart_case_when_query_has_uppercase() {
    assert_eq!(find_matches("Foo foo FOO", "Foo"), vec![0..3]);
}

#[test]
fn non_overlapping_and_empty_query() {
    assert_eq!(find_matches("aaaa", "aa"), vec![0..2, 2..4]);
    assert!(find_matches("anything", "").is_empty());
}

#[test]
fn unicode_boundaries_are_respected() {
    assert_eq!(find_matches("héllo héllo", "llo"), vec![3..6, 10..13]);
}
