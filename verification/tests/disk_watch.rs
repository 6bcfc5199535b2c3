use loom_cli::disk_watch::{DiskAction, DiskWatch};

#[test]
fn an_unchanged_file_is_left_alone() {
    let mut w = DiskWatch::new(true);
    w.edited();
    assert!(matches!(w.disk_read(false, "a".to_string()), DiskAction::Unchanged));
    assert!(w.dirty);
    assert_eq!(w.conflict, None);
}

#[test]
fn a_clean_scene_follows_the_file() {
    let mut w = DiskWatch::new(true);
    assert!(matches!(w.disk_read(true, "theirs".to_string()), DiskAction::Reload));
    assert_eq!(w.conflict, None);
    assert!(!w.dirty);
}

#[test]
fn a_read_only_scene_follows_the_file_even_when_marked_dirty() {
    let mut w = DiskWatch::new(false);
    w.edited();
    assert!(matches!(w.disk_read(true, "theirs".to_string()), DiskAction::Reload));
}

#[test]
fn unsaved_edits_hold_a_new_version_as_a_conflict() {
    let mut w = DiskWatch::new(true);
    w.edited();
    assert!(matches!(w.disk_read(true, "theirs".to_string()), DiskAction::Conflict { first: true }));
    assert_eq!(w.conflict, Some("theirs".to_string()));
    assert!(matches!(w.disk_read(true, "theirs again".to_string()), DiskAction::Conflict { first: false }));
    assert_eq!(w.conflict, Some("theirs again".to_string()));
    assert!(w.dirty);
}

#[test]
fn taking_the_disk_version_discards_the_edits() {
    let mut w = DiskWatch::new(true);
    w.edited();
    w.disk_read(true, "theirs".to_string());
    assert_eq!(w.accept_disk(), Some("theirs".to_string()));
    assert!(!w.dirty);
    assert_eq!(w.conflict, None);
    assert_eq!(w.accept_disk(), None);
}

#[test]
fn keeping_mine_leaves_the_edits_to_be_saved() {
    let mut w = DiskWatch::new(true);
    w.edited();
    w.disk_read(true, "theirs".to_string());
    assert_eq!(w.keep_mine(), Some("theirs".to_string()));
    assert!(w.dirty);
    assert_eq!(w.conflict, None);
    assert_eq!(w.keep_mine(), None);
}

#[test]
fn a_refused_save_raises_the_conflict_and_a_save_clears_it() {
    let mut w = DiskWatch::new(true);
    w.edited();
    w.save_refused("current".to_string());
    assert_eq!(w.conflict, Some("current".to_string()));
    assert!(w.dirty);
    assert!(!w.may_switch());
    w.saved();
    assert!(!w.dirty);
    assert_eq!(w.conflict, None);
    assert!(w.may_switch());
    assert!(matches!(w.disk_read(true, "later".to_string()), DiskAction::Reload));
}
