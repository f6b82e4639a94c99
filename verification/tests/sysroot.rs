use ardos_packer::sorting::sort_stable;
use ardos_packer::sysroot::{sysroot_interpreter_path, SysrootDeps};

#[test]
fn nothing_missing_is_ok() {
	let mut deps = SysrootDeps::new(vec!["libc.so.6".to_string()]);
	deps.record_needed("bin/sh", &vec!["libc.so.6".to_string(), "linux-vdso.so.1".to_string()]);
	assert_eq!(deps.report(), Ok(()));
}

#[test]
fn missing_libraries_are_reported_sorted() {
	let mut deps = SysrootDeps::new(vec!["libc.so.6".to_string()]);
	deps.record_needed("usr/bin/b", &vec!["libz.so.1".to_string(), "libc.so.6".to_string()]);
	deps.record_needed("usr/bin/a", &vec!["libz.so.1".to_string(), "liba.so".to_string()]);
	let report = deps.report().unwrap_err();
	assert_eq!(
		report,
		"Missing DT_NEEDED shared libraries:\n  - liba.so\n      * usr/bin/a\n  - libz.so.1\n      * usr/bin/a\n      * usr/bin/b\n"
	);
}

#[test]
fn interpreters_come_first_with_a_blank_line() {
	let mut deps = SysrootDeps::new(Vec::new());
	deps.record_missing_interpreter("bin/x", "/lib/ld.so");
	deps.record_needed("bin/x", &vec!["libq.so".to_string()]);
	assert_eq!(
		deps.report().unwrap_err(),
		"Missing ELF interpreters (PT_INTERP):\n  - /lib/ld.so\n      * bin/x\n\nMissing DT_NEEDED shared libraries:\n  - libq.so\n      * bin/x\n"
	);
}

#[test]
fn long_path_lists_are_cut_at_25() {
	let mut deps = SysrootDeps::new(Vec::new());
	for i in 0..30 {
		deps.record_missing_interpreter(&format!("bin/f{:02}", 29 - i), "/ld");
	}
	let report = deps.report().unwrap_err();
	let mut expected = String::from("Missing ELF interpreters (PT_INTERP):\n  - /ld\n");
	for i in 0..25 {
		expected.push_str(&format!("      * bin/f{:02}\n", i));
	}
	expected.push_str("      * \u{2026} +5 more\n");
	assert_eq!(report, expected);
}

#[test]
fn paths_sort_by_components() {
	let sorted = sort_stable(true, &vec!["a-b".to_string(), "a/b".to_string(), "a".to_string()]);
	assert_eq!(sorted, vec!["a".to_string(), "a/b".to_string(), "a-b".to_string()]);
	let sorted = sort_stable(false, &vec!["a-b".to_string(), "a/b".to_string(), "a".to_string()]);
	assert_eq!(sorted, vec!["a".to_string(), "a-b".to_string(), "a/b".to_string()]);
	let sorted = sort_stable(true, &vec!["x//y".to_string(), "x/y".to_string(), "./x".to_string(), "/z".to_string()]);
	assert_eq!(
		sorted,
		vec!["/z".to_string(), "./x".to_string(), "x//y".to_string(), "x/y".to_string()]
	);
}

#[test]
fn interpreter_lookup_path_inside_sysroot() {
	assert_eq!(
		sysroot_interpreter_path("/lib64/ld-linux-x86-64.so.2"),
		Some("lib64/ld-linux-x86-64.so.2".to_string())
	);
	assert_eq!(sysroot_interpreter_path("//x"), Some("x".to_string()));
	assert_eq!(sysroot_interpreter_path("relative/ld.so"), None);
	assert_eq!(sysroot_interpreter_path(""), None);
}

#[test]
fn sorting_keeps_every_element_in_order() {
	let items = vec![
		"b".to_string(),
		"a".to_string(),
		"c".to_string(),
		"a".to_string(),
	];
	assert_eq!(
		sort_stable(false, &items),
		vec!["a".to_string(), "a".to_string(), "b".to_string(), "c".to_string()]
	);
	assert!(sort_stable(true, &Vec::new()).is_empty());
}
