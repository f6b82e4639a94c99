use ardos_packer::fs_utils::{copy_entry_action, newer_check, CopyAction, EntryKind, FileWalk, NewerCheck};

#[test]
fn copy_actions_follow_the_entry_type() {
	assert_eq!(copy_entry_action(false, true, true), CopyAction::Skip);
	assert_eq!(copy_entry_action(true, true, false), CopyAction::Symlink);
	assert_eq!(copy_entry_action(true, true, true), CopyAction::Symlink);
	assert_eq!(copy_entry_action(true, false, true), CopyAction::Recurse);
	assert_eq!(copy_entry_action(true, false, false), CopyAction::CopyFile);
}

#[test]
fn newer_check_decisions() {
	assert_eq!(newer_check(true, Some(10), 5), NewerCheck::Descend);
	assert_eq!(newer_check(false, Some(10), 5), NewerCheck::Newer);
	assert_eq!(newer_check(false, Some(5), 5), NewerCheck::Continue);
	assert_eq!(newer_check(false, Some(-3), 5), NewerCheck::Continue);
	assert_eq!(newer_check(false, None, 5), NewerCheck::Continue);
}

#[test]
fn file_walk_is_depth_first_and_collects_files_and_links() {
	let mut walk = FileWalk::new("root".to_string());
	assert_eq!(walk.next_directory(), Some("root".to_string()));
	walk.visit("root/a".to_string(), EntryKind::Directory);
	walk.visit("root/f".to_string(), EntryKind::File);
	walk.visit("root/b".to_string(), EntryKind::Directory);
	walk.visit("root/l".to_string(), EntryKind::Symlink);
	walk.visit("root/p".to_string(), EntryKind::Other);
	assert_eq!(walk.next_directory(), Some("root/b".to_string()));
	walk.visit("root/b/g".to_string(), EntryKind::File);
	assert_eq!(walk.next_directory(), Some("root/a".to_string()));
	assert_eq!(walk.next_directory(), None);
	assert_eq!(
		walk.into_files(),
		vec!["root/f".to_string(), "root/l".to_string(), "root/b/g".to_string()]
	);
}
