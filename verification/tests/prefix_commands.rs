use ardos_packer::prefix_commands::{
	cleanup_targets, docker_container_name, exit_after_child, register_child_group,
	register_docker_container, tag_line, unregister_child_group, unregister_docker_container,
};

#[test]
fn registering_a_container_twice_keeps_one_entry() {
	let mut containers = Vec::new();
	register_docker_container(&mut containers, "pkg-a");
	register_docker_container(&mut containers, "pkg-b");
	register_docker_container(&mut containers, "pkg-a");
	assert_eq!(containers, vec!["pkg-a".to_string(), "pkg-b".to_string()]);
}

#[test]
fn unregistering_a_container_removes_every_entry() {
	let mut containers = vec!["x".to_string(), "y".to_string(), "x".to_string()];
	unregister_docker_container(&mut containers, "x");
	assert_eq!(containers, vec!["y".to_string()]);
	unregister_docker_container(&mut containers, "missing");
	assert_eq!(containers, vec!["y".to_string()]);
}

#[test]
fn register_then_unregister_restores_the_registry() {
	let mut containers = vec!["keep".to_string()];
	register_docker_container(&mut containers, "tmp");
	unregister_docker_container(&mut containers, "tmp");
	assert_eq!(containers, vec!["keep".to_string()]);
}

#[test]
fn child_groups_are_registered_once_and_unregistered() {
	let mut groups = Vec::new();
	register_child_group(&mut groups, 10);
	register_child_group(&mut groups, 20);
	register_child_group(&mut groups, 10);
	assert_eq!(groups, vec![10, 20]);
	unregister_child_group(&mut groups, 10);
	assert_eq!(groups, vec![20]);
	unregister_child_group(&mut groups, 99);
	assert_eq!(groups, vec![20]);
}

#[test]
fn container_names_are_sanitized() {
	assert_eq!(
		docker_container_name("pkg-Tibs_App", 42, 7),
		"ardos-packer-pkg-tibs-app-42-7"
	);
	assert_eq!(docker_container_name("--Ab--", 1, 0), "ardos-packer-ab-1-0");
	assert_eq!(docker_container_name("---", 3, 12), "ardos-packer--3-12");
	assert_eq!(docker_container_name("é9", 0, 100), "ardos-packer-9-0-100");
	assert_eq!(
		docker_container_name("x", 4294967295, 18446744073709551615),
		"ardos-packer-x-4294967295-18446744073709551615"
	);
}

#[test]
fn lines_are_tagged_at_start_and_after_line_breaks() {
	assert_eq!(tag_line("hello", "[t] "), "[t] hello");
	assert_eq!(tag_line("a\r\nb", "> "), "> a\n> b");
	assert_eq!(tag_line("a\rb", "> "), "> a\r> b");
	assert_eq!(tag_line("", "T"), "T");
	assert_eq!(tag_line("x\n", "T"), "Tx\nT");
}

#[test]
fn exit_decision_after_a_child() {
	assert_eq!(exit_after_child(Some(9), None), Some(137));
	assert_eq!(exit_after_child(Some(2), Some(130)), Some(130));
	assert_eq!(exit_after_child(None, Some(130)), Some(130));
	assert_eq!(exit_after_child(None, Some(1)), None);
	assert_eq!(exit_after_child(None, Some(0)), None);
	assert_eq!(exit_after_child(None, None), None);
}

#[test]
fn cleanup_targets_copy_both_registries() {
	assert!(cleanup_targets(&Vec::new(), &Vec::new()).is_none());
	let (groups, containers) = cleanup_targets(&vec![5, 6], &vec!["c".to_string()]).unwrap();
	assert_eq!(groups, vec![5, 6]);
	assert_eq!(containers, vec!["c".to_string()]);
	let (groups, containers) = cleanup_targets(&Vec::new(), &vec!["c".to_string()]).unwrap();
	assert!(groups.is_empty());
	assert_eq!(containers, vec!["c".to_string()]);
}

#[test]
fn plain_lines_only_get_the_leading_tag() {
	assert_eq!(tag_line("no breaks here", "[x] "), "[x] no breaks here");
}

#[test]
fn names_with_different_counts_differ() {
	assert_ne!(docker_container_name("pkg", 7, 1), docker_container_name("pkg", 7, 2));
	assert_ne!(docker_container_name("a-1", 2, 3), docker_container_name("a", 12, 13));
	assert_ne!(docker_container_name("x", 1, 10), docker_container_name("x-1", 1, 0));
}
