use supermd::editor::autosave::{
    backup_file_name, backup_stamp, has_conflict, plan_gc, should_reload, SavePolicy,
};

/// One millisecond, in the policy's nanosecond clock.
const MS: u64 = 1_000_000;

/// An arbitrary monotonic-clock reading to start from.
fn now() -> u64 {
    7_000 * MS
}

#[test]
fn clean_policy_never_flushes() {
    let policy = SavePolicy::default();
    assert!(!policy.is_dirty());
    assert!(!policy.should_flush(now()));
}

#[test]
fn flushes_only_after_debounce_idle() {
    let mut policy = SavePolicy::default();
    let start = now();
    policy.record_edit(start);
    assert!(policy.is_dirty());
    assert!(!policy.should_flush(start + 500 * MS));
    assert!(policy.should_flush(start + 1001 * MS));
}

#[test]
fn new_edit_restarts_debounce() {
    let mut policy = SavePolicy::default();
    let start = now();
    policy.record_edit(start);
    policy.record_edit(start + 900 * MS);
    assert!(!policy.should_flush(start + 1500 * MS));
    assert!(policy.should_flush(start + 1901 * MS));
}

#[test]
fn mark_saved_clears_dirty() {
    let mut policy = SavePolicy::default();
    let start = now();
    policy.record_edit(start);
    policy.mark_saved();
    assert!(!policy.is_dirty());
    assert!(!policy.should_flush(start + 10_000 * MS));
}

#[test]
fn take_flush_now_reports_dirty_once_meaningfully() {
    let mut policy = SavePolicy::default();
    assert!(!policy.take_flush_now());
    policy.record_edit(now());
    assert!(policy.take_flush_now());
    // still dirty until mark_saved — the caller saves, then marks
    assert!(policy.is_dirty());
    policy.mark_saved();
    assert!(!policy.take_flush_now());
}

#[test]
fn reload_only_when_clean_and_changed() {
    assert!(should_reload(false, true));
    assert!(!should_reload(true, true)); // dirty buffers keep user edits
    assert!(!should_reload(false, false));
    assert!(!should_reload(true, false));
}

#[test]
fn gc_plan_prunes_by_age_and_count() {
    let now = 100_000_000u64;
    let day = 86_400u64;
    // (name, stamp): two ancient, three recent
    let entries = vec![
        ("old-a".to_string(), now - 40 * day),
        ("old-b".to_string(), now - 31 * day),
        ("new-a".to_string(), now - day),
        ("new-b".to_string(), now - 2 * day),
        ("new-c".to_string(), now - 3 * day),
    ];
    // age rule alone
    let doomed = plan_gc(&entries, now, 10, 30 * day);
    assert_eq!(doomed, vec!["old-a".to_string(), "old-b".to_string()]);
    // count rule: keep the 2 newest of the survivors
    let doomed = plan_gc(&entries, now, 2, 30 * day);
    assert!(doomed.contains(&"old-a".to_string()) && doomed.contains(&"old-b".to_string()));
    assert!(doomed.contains(&"new-c".to_string()), "oldest survivor beyond cap");
    assert_eq!(doomed.len(), 3);
}

#[test]
fn a_clock_reading_before_the_edit_counts_as_no_time() {
    let mut policy = SavePolicy::default();
    policy.record_edit(5_000 * MS);
    assert!(!policy.should_flush(1_000 * MS));
}

#[test]
fn the_count_cap_removes_the_oldest_in_listing_order_on_ties() {
    let entries = vec![
        ("b".to_string(), 10u64),
        ("a".to_string(), 5u64),
        ("c".to_string(), 5u64),
        ("d".to_string(), 20u64),
    ];
    assert_eq!(plan_gc(&entries, 30, 1, 1_000), vec!["a".to_string(), "c".to_string(), "b".to_string()]);
    assert!(plan_gc(&entries, 30, 4, 1_000).is_empty());
}

#[test]
fn conflicts_need_a_file_on_disk_that_we_did_not_see() {
    assert!(has_conflict(None, Some(3)));
    assert!(has_conflict(Some(2), Some(3)));
    assert!(!has_conflict(Some(3), Some(3)));
    assert!(!has_conflict(Some(3), None));
    assert!(!has_conflict(None, None));
}

#[test]
fn backup_names_lead_with_the_stamp_and_a_padded_counter() {
    assert_eq!(backup_file_name(1700000000, 1, "note.md"), "1700000000-001-note.md");
    assert_eq!(backup_file_name(5, 42, "a"), "5-042-a");
    assert_eq!(backup_file_name(5, 1234, "a"), "5-1234-a");
}

#[test]
fn backup_stamps_parse_the_part_before_the_first_dash() {
    assert_eq!(backup_stamp("1700000000-001-note.md"), Some(1700000000));
    assert_eq!(backup_stamp("+12-x"), Some(12));
    assert_eq!(backup_stamp("notes.md"), None);
    assert_eq!(backup_stamp("-001-x"), None);
    assert_eq!(backup_stamp("99999999999999999999-x"), None);
    assert_eq!(backup_stamp("42"), Some(42));
}
