use ardos_packer::packages::{
	build_plan, cargo_override_env, order_workspace_members, group_dependency_sources, WorkspaceMember, is_built_package_file, normalize_cargo_source, CargoDependency, propagate_stale_packages, selected_package_names,
	validate_package_selection, BuildResult, BuildSummary, Package, PackageSelectionError,
};
use std::collections::HashSet;

fn package(name: &str, build_deps: &[&str]) -> Package {
	Package {
		name: name.to_string(),
		version: "1".to_string(),
		build_deps: build_deps
			.iter()
			.map(|dependency| dependency.to_string())
			.collect(),
	}
}

fn as_set(names: Vec<String>) -> HashSet<String> {
	names.into_iter().collect()
}

fn seed(names: HashSet<String>) -> Vec<String> {
	names.into_iter().collect()
}

#[test]
fn stale_state_propagates_to_transitive_dependents() {
	let packages = vec![
		package("library", &[]),
		package("consumer", &["library"]),
		package("image-service", &["consumer"]),
		package("unrelated", &[]),
	];
	let stale = propagate_stale_packages(&packages, seed(HashSet::from(["library".to_string()])));

	assert_eq!(
		as_set(stale),
		HashSet::from([
			"library".to_string(),
			"consumer".to_string(),
			"image-service".to_string(),
		])
	);
}

#[test]
fn dependency_cycles_do_not_recurse_forever() {
	let packages = vec![package("a", &["b"]), package("b", &["a"])];
	let stale = propagate_stale_packages(&packages, seed(HashSet::from(["a".to_string()])));

	assert_eq!(as_set(stale), HashSet::from(["a".to_string(), "b".to_string()]));
}

#[test]
fn normalizes_cargo_git_sources_for_patch_tables() {
	assert_eq!(
		normalize_cargo_source("git+https://github.com/ardos-os/easydrm?branch=main#0123456789"),
		Some("https://github.com/ardos-os/easydrm".to_string())
	);
}

#[test]
fn registry_sources_normalize_to_crates_io() {
	assert_eq!(
		normalize_cargo_source("registry+https://github.com/rust-lang/crates.io-index"),
		Some("crates-io".to_string())
	);
}

#[test]
fn other_sources_are_not_normalized() {
	assert_eq!(normalize_cargo_source("path+file:///tmp/x"), None);
	assert_eq!(normalize_cargo_source(""), None);
}

#[test]
fn git_sources_lose_fragment_and_trailing_slashes() {
	assert_eq!(
		normalize_cargo_source("git+https://example.org/repo//#abc"),
		Some("https://example.org/repo".to_string())
	);
	assert_eq!(
		normalize_cargo_source("git+https://example.org/repo"),
		Some("https://example.org/repo".to_string())
	);
}

#[test]
fn propagation_without_stale_seed_is_empty() {
	let packages = vec![package("a", &["b"]), package("b", &[])];
	let stale = propagate_stale_packages(&packages, Vec::new());
	assert!(stale.is_empty());
}

#[test]
fn propagation_result_has_no_duplicates() {
	let packages = vec![
		package("a", &[]),
		package("b", &["a"]),
		package("c", &["a", "b"]),
		package("c", &["a"]),
	];
	let stale = propagate_stale_packages(&packages, vec!["a".to_string(), "a".to_string()]);
	assert_eq!(stale.len(), 3);
	assert_eq!(
		as_set(stale),
		HashSet::from(["a".to_string(), "b".to_string(), "c".to_string()])
	);
}

#[test]
fn propagation_keeps_unknown_seed_names() {
	let packages = vec![package("a", &["ghost"])];
	let stale = propagate_stale_packages(&packages, vec!["ghost".to_string()]);
	assert_eq!(as_set(stale), HashSet::from(["ghost".to_string(), "a".to_string()]));
}

#[test]
fn propagating_twice_adds_nothing() {
	let packages = vec![
		package("library", &[]),
		package("consumer", &["library"]),
		package("image-service", &["consumer"]),
	];
	let once = propagate_stale_packages(&packages, vec!["library".to_string()]);
	let twice = propagate_stale_packages(&packages, once.clone());
	assert_eq!(as_set(once), as_set(twice));
}

#[test]
fn validation_names_the_unknown_package() {
	let packages = vec![package("a", &[])];
	assert!(validate_package_selection(&packages, "a").is_ok());
	match validate_package_selection(&packages, "zzz") {
		Err(PackageSelectionError::UnknownPackage(name)) => assert_eq!(name, "zzz"),
		other => panic!("unexpected {:?}", other),
	}
}

#[test]
fn selection_without_a_name_takes_every_package() {
	let packages = vec![package("a", &[]), package("b", &["a"]), package("a", &[])];
	let selected = selected_package_names(&packages, None).unwrap();
	assert_eq!(selected.len(), 2);
	assert_eq!(as_set(selected), HashSet::from(["a".to_string(), "b".to_string()]));
}

#[test]
fn selection_follows_build_dependencies() {
	let packages = vec![
		package("base", &[]),
		package("lib", &["base"]),
		package("app", &["lib", "base"]),
		package("other", &["base"]),
	];
	let selected = selected_package_names(&packages, Some("app")).unwrap();
	assert_eq!(
		as_set(selected),
		HashSet::from(["app".to_string(), "lib".to_string(), "base".to_string()])
	);
	let selected = selected_package_names(&packages, Some("base")).unwrap();
	assert_eq!(selected, vec!["base".to_string()]);
}

#[test]
fn selection_handles_dependency_cycles() {
	let packages = vec![package("a", &["b"]), package("b", &["a"])];
	let selected = selected_package_names(&packages, Some("a")).unwrap();
	assert_eq!(as_set(selected), HashSet::from(["a".to_string(), "b".to_string()]));
}

#[test]
fn selection_fails_on_unknown_names() {
	let packages = vec![package("app", &["missing"])];
	match selected_package_names(&packages, Some("app")) {
		Err(PackageSelectionError::UnknownPackage(name)) => assert_eq!(name, "missing"),
		other => panic!("unexpected {:?}", other),
	}
	match selected_package_names(&packages, Some("nope")) {
		Err(PackageSelectionError::UnknownPackage(name)) => assert_eq!(name, "nope"),
		other => panic!("unexpected {:?}", other),
	}
}

#[test]
fn build_plan_keeps_manifest_order() {
	let packages = vec![package("a", &[]), package("b", &[]), package("c", &[]), package("d", &[])];
	let selected = vec!["d".to_string(), "b".to_string(), "a".to_string()];
	let stale = vec!["a".to_string(), "d".to_string(), "c".to_string()];
	assert_eq!(build_plan(&packages, &selected, &stale), vec![0, 3]);
	assert!(build_plan(&packages, &Vec::new(), &stale).is_empty());
}

#[test]
fn build_summaries() {
	let mut result = BuildResult::new(2);
	assert_eq!(result.summary(), BuildSummary::UpToDate);
	assert!(!result.failed());
	result.record_built();
	assert_eq!(result.summary(), BuildSummary::Built { built: 1, incremental: true });
	result.record_built();
	assert_eq!(result.summary(), BuildSummary::Built { built: 2, incremental: false });
	result.record_error();
	assert_eq!(result.summary(), BuildSummary::SomeFailed { errors: 1, total: 2 });
	assert!(result.failed());
	let mut all = BuildResult::new(1);
	all.record_error();
	assert_eq!(all.summary(), BuildSummary::AllFailed { errors: 1 });
	assert_eq!(BuildResult::new(0).summary(), BuildSummary::UpToDate);
}

fn dependency(name: Option<&str>, source: Option<&str>) -> CargoDependency {
	CargoDependency {
		name: name.map(str::to_string),
		source: source.map(str::to_string),
	}
}

#[test]
fn dependency_sources_are_grouped_deduplicated_and_sorted() {
	let deps = vec![
		dependency(Some("easydrm"), Some("git+https://github.com/ardos-os/easydrm?branch=main#0123")),
		dependency(Some("serde"), Some("registry+https://github.com/rust-lang/crates.io-index")),
		dependency(Some("easydrm"), Some("git+https://github.com/ardos-os/easydrm#abcd")),
		dependency(Some("easydrm"), Some("git+https://a.example/easydrm/")),
		dependency(Some("local"), None),
		dependency(None, Some("git+https://x.example/y")),
		dependency(Some("pathdep"), Some("path+file:///tmp")),
	];
	let groups = group_dependency_sources(&deps);
	assert_eq!(
		groups,
		vec![
			(
				"easydrm".to_string(),
				vec![
					"https://a.example/easydrm".to_string(),
					"https://github.com/ardos-os/easydrm".to_string()
				]
			),
			("serde".to_string(), vec!["crates-io".to_string()]),
		]
	);
}

#[test]
fn built_archives_are_recognized() {
	assert!(is_built_package_file("tibs-0.1-1-x86_64.pkg.tar.zst", "tibs", "0.1", None));
	assert!(!is_built_package_file("tibs-debug-0.1-1-x86_64.pkg.tar.zst", "tibs", "0.1", None));
	assert!(!is_built_package_file("tibs-0.1-1-x86_64.pkg.tar.xz", "tibs", "0.1", None));
	assert!(!is_built_package_file("makepkg", "tibs", "0.1", None));
	let picks = vec!["mesa".to_string(), "libva".to_string()];
	assert!(is_built_package_file("libva-24.1-1-x86_64.pkg.tar.zst", "group", "24.1", Some(&picks)));
	assert!(!is_built_package_file("vulkan-24.1-1-x86_64.pkg.tar.zst", "group", "24.1", Some(&picks)));
	assert!(!is_built_package_file("mesa-24.0-1-x86_64.pkg.tar.zst", "group", "24.1", Some(&picks)));
	assert!(!is_built_package_file("x.pkg.tar.zst", "group", "1", Some(&Vec::new())));
}

fn member(name: &str, path: &str, sources: &[&str]) -> WorkspaceMember {
	WorkspaceMember {
		name: name.to_string(),
		path: path.to_string(),
		patch_sources: sources.iter().map(|s| s.to_string()).collect(),
	}
}

#[test]
fn cargo_overrides_are_sorted_deduplicated_and_joined() {
	let workspaces = vec![
		vec![
			member("tab-client", "client", &["https://github.com/ardos-os/shift"]),
			member("tab-app-framework", "framework", &["https://github.com/ardos-os/shift"]),
		],
		vec![
			member("easydrm", "", &["https://github.com/ardos-os/easydrm"]),
			member("easydrm", "", &["https://github.com/ardos-os/easydrm"]),
			member("nothing", "x", &[]),
		],
	];
	assert_eq!(
		cargo_override_env(&workspaces),
		Some(
			"ARDOS_CARGO_OVERRIDES=https://github.com/ardos-os/easydrm|easydrm=/cargo-workspaces/1/\nhttps://github.com/ardos-os/shift|tab-app-framework=/cargo-workspaces/0/framework\nhttps://github.com/ardos-os/shift|tab-client=/cargo-workspaces/0/client"
				.to_string()
		)
	);
	assert_eq!(cargo_override_env(&Vec::new()), None);
	assert_eq!(cargo_override_env(&vec![vec![member("a", "b", &[])]]), None);
}

#[test]
fn workspace_members_are_ordered_by_name_once_each() {
	let ordered = order_workspace_members(vec![
		member("tab-client", "client", &[]),
		member("easydrm", "first", &["s"]),
		member("tab-app-framework", "framework", &[]),
		member("easydrm", "second", &[]),
	]);
	let names: Vec<(&str, &str)> = ordered
		.iter()
		.map(|m| (m.name.as_str(), m.path.as_str()))
		.collect();
	assert_eq!(
		names,
		vec![("easydrm", "first"), ("tab-app-framework", "framework"), ("tab-client", "client")]
	);
	assert!(order_workspace_members(Vec::new()).is_empty());
}
