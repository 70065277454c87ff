use supermd::diff::{diff_doc, ChangeKind};

#[test]
fn identical_docs_have_no_changes() {
    let d = diff_doc("a\nb\n", "a\nb\n");
    assert_eq!(d.text, "a\nb\n");
    assert!(d.changes.is_empty());
}

#[test]
fn pure_insertion_marks_added() {
    let d = diff_doc("a\nc\n", "a\nb\nc\n");
    assert_eq!(d.text, "a\nb\nc\n");
    assert_eq!(d.changes.len(), 1);
    assert_eq!(d.changes[0].kind, ChangeKind::Added);
    assert_eq!(&d.text[d.changes[0].range.clone()], "b\n");
}

#[test]
fn pure_deletion_splices_deleted_run() {
    let d = diff_doc("a\nb\nc\n", "a\nc\n");
    assert_eq!(d.text, "a\nb\nc\n");
    assert_eq!(d.changes.len(), 1);
    assert_eq!(d.changes[0].kind, ChangeKind::Deleted);
    assert_eq!(&d.text[d.changes[0].range.clone()], "b\n");
}

#[test]
fn changes_sorted_and_non_overlapping() {
    let d = diff_doc("a\nX\nc\nY\ne\n", "a\nb\nc\nd\ne\n");
    let mut last = 0;
    for c in &d.changes {
        assert!(c.range.start >= last, "sorted, non-overlapping");
        assert!(d.text.is_char_boundary(c.range.start));
        assert!(d.text.is_char_boundary(c.range.end));
        last = c.range.end;
    }
    assert!(!d.changes.is_empty());
}

fn assert_reconstruction(old: &str, new: &str) {
    let d = diff_doc(old, new);
    let strip = |kind: ChangeKind| {
        let mut out = String::new();
        let mut pos = 0;
        for c in &d.changes {
            if c.kind == kind {
                out.push_str(&d.text[pos..c.range.start]);
                pos = c.range.end;
            }
        }
        out.push_str(&d.text[pos..]);
        out
    };
    assert_eq!(strip(ChangeKind::Deleted), new, "strip deleted == new for {old:?} -> {new:?}");
    assert_eq!(strip(ChangeKind::Added), old, "strip added == old for {old:?} -> {new:?}");
}

#[test]
fn reconstruction_invariants_hold() {
    for (old, new) in [
        ("", ""),
        ("a\n", ""),
        ("", "a\n"),
        ("a\nb\nc\n", "a\nc\n"),
        ("a\nc\n", "a\nb\nc\n"),
        ("x\ny\n", "p\nq\n"),
        ("one two three\n", "one 2 three\n"),
        ("no trailing newline", "still no newline"),
    ] {
        assert_reconstruction(old, new);
    }
}

#[test]
fn a_changed_line_is_deleted_then_added() {
    let d = diff_doc("x\ny\n", "x\nz\n");
    assert_eq!(d.text, "x\ny\nz\n");
    assert_eq!(d.changes.len(), 2);
    assert_eq!(d.changes[0].kind, ChangeKind::Deleted);
    assert_eq!(d.changes[0].range, 2..4);
    assert_eq!(d.changes[1].kind, ChangeKind::Added);
    assert_eq!(d.changes[1].range, 4..6);
}

#[test]
fn adjacent_deleted_lines_merge_into_one_range() {
    let d = diff_doc("a\nb\nc\nd\n", "a\nd\n");
    assert_eq!(d.changes.len(), 1);
    assert_eq!(d.changes[0].kind, ChangeKind::Deleted);
    assert_eq!(d.changes[0].range, 2..6);
}

#[test]
fn multibyte_lines_keep_byte_ranges_on_boundaries() {
    let d = diff_doc("é\n", "ü\n");
    assert_eq!(d.text, "é\nü\n");
    assert_eq!(d.changes[0].range, 0..3);
    assert_eq!(d.changes[1].range, 3..6);
}
