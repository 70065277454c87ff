use supermd::editor::editor_core::Selection;

#[test]
fn selection_range_normalizes_reversed() {
    let sel = Selection { anchor: 9, head: 2 };
    assert_eq!(sel.range(), 2..9);
    assert!(!sel.is_cursor());
    assert!(Selection::cursor(4).is_cursor());
}

#[test]
fn a_forward_selection_keeps_its_order() {
    let sel = Selection { anchor: 1, head: 5 };
    assert_eq!(sel.range(), 1..5);
    assert_eq!(Selection::cursor(3).range(), 3..3);
}
