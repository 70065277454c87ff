use supermd::editor::autosave::{BackupPlan, BackupRegistry, SourceFacts};

fn on_disk(name: &str, stamp: u64) -> SourceFacts {
    SourceFacts { exists: true, same_as_head: false, stamp, file_name: Some(name.to_string()) }
}

#[test]
fn the_first_backup_of_a_file_is_a_numbered_copy_and_only_once() {
    let mut reg = BackupRegistry::new();
    let plan = reg.backup_if_needed("/notes/note.md", &on_disk("note.md", 1700000000));
    assert_eq!(plan, BackupPlan::CopyTo("1700000000-001-note.md".to_string()));
    // not yet made: asking again plans another copy
    assert!(!reg.is_seen("/notes/note.md"));
    reg.mark_seen("/notes/note.md");
    let again = reg.backup_if_needed("/notes/note.md", &on_disk("note.md", 1700000005));
    assert_eq!(again, BackupPlan::AlreadyDone);
}

#[test]
fn a_missing_file_needs_no_backup_and_counts_as_done() {
    let mut reg = BackupRegistry::new();
    let facts = SourceFacts { exists: false, same_as_head: false, stamp: 1, file_name: None };
    assert_eq!(reg.backup_if_needed("/nonexistent/x.md", &facts), BackupPlan::Nothing);
    assert!(reg.is_seen("/nonexistent/x.md"));
}

#[test]
fn a_file_that_matches_its_commit_needs_no_copy() {
    let mut reg = BackupRegistry::new();
    let facts = SourceFacts { same_as_head: true, ..on_disk("a.md", 9) };
    assert_eq!(reg.backup_if_needed("/r/a.md", &facts), BackupPlan::Nothing);
    // untracked or changed files still get one
    let next = reg.backup_if_needed("/r/b.md", &on_disk("b.md", 9));
    assert_eq!(next, BackupPlan::CopyTo("9-001-b.md".to_string()));
}

#[test]
fn force_backup_copies_again_under_a_new_number() {
    let mut reg = BackupRegistry::new();
    let first = reg.backup_if_needed("/d/note.md", &on_disk("note.md", 50));
    assert_eq!(first, BackupPlan::CopyTo("50-001-note.md".to_string()));
    reg.mark_seen("/d/note.md");
    let second = reg.force_backup("/d/note.md", &on_disk("note.md", 50));
    assert_eq!(second, BackupPlan::CopyTo("50-002-note.md".to_string()));
    assert!(reg.is_seen("/d/note.md"));
}

#[test]
fn a_path_without_a_file_name_is_backed_up_as_unnamed() {
    let mut reg = BackupRegistry::new();
    let facts = SourceFacts { exists: true, same_as_head: false, stamp: 7, file_name: None };
    assert_eq!(reg.backup_if_needed("/", &facts), BackupPlan::CopyTo("7-001-unnamed".to_string()));
}
