use ardos_packer::assemble::{
	commit_hash_from_output, image_file_name, squashfs_status, sysroot_status, AssembleError,
	SquashFsError,
};
use ardos_packer::sysroot::SysrootDeps;

#[test]
fn image_names_carry_version_and_commit() {
	assert_eq!(
		image_file_name("0.1-dev", Some("abc1234".to_string())),
		"ardos-0.1-dev-abc1234.squashfs"
	);
	assert_eq!(image_file_name("0.1-dev", None), "ardos-0.1-dev-unknown.squashfs");
}

#[test]
fn commit_hash_is_trimmed_output() {
	assert_eq!(
		commit_hash_from_output(true, b"3f2a9c1\n".to_vec()),
		Some("3f2a9c1".to_string())
	);
	assert_eq!(commit_hash_from_output(false, b"3f2a9c1\n".to_vec()), None);
	assert_eq!(commit_hash_from_output(true, vec![0xff, 0xfe]), None);
	assert_eq!(commit_hash_from_output(true, b"  \n".to_vec()), Some(String::new()));
}

#[test]
fn squashfs_failures_carry_the_exit_code() {
	assert!(squashfs_status(true, Some(0)).is_ok());
	match squashfs_status(false, Some(3)) {
		Err(SquashFsError::Non0ExitCode { exit_code }) => assert_eq!(exit_code, 3),
		other => panic!("unexpected {:?}", other),
	}
	match squashfs_status(false, None) {
		Err(SquashFsError::Non0ExitCode { exit_code }) => assert_eq!(exit_code, -1),
		other => panic!("unexpected {:?}", other),
	}
}

#[test]
fn sysroot_findings_become_an_assemble_error() {
	let deps = SysrootDeps::new(Vec::new());
	assert!(sysroot_status(&deps).is_ok());
	let mut deps = SysrootDeps::new(Vec::new());
	deps.record_needed("bin/x", &vec!["libm.so.6".to_string()]);
	match sysroot_status(&deps) {
		Err(AssembleError::SysrootDeps { details }) => assert_eq!(
			details,
			"Missing DT_NEEDED shared libraries:\n  - libm.so.6\n      * bin/x\n"
		),
		other => panic!("unexpected {:?}", other),
	}
}
