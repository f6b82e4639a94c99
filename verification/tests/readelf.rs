use ardos_packer::readelf::{
	has_elf_magic, parse_readelf_bracket_value, readelf_interpreter, readelf_needed_libraries,
};

#[test]
fn bracket_values_are_trimmed() {
	assert_eq!(
		parse_readelf_bracket_value(" 0x0000000000000001 (NEEDED)             Shared library: [libc.so.6]"),
		Some("libc.so.6".to_string())
	);
	assert_eq!(parse_readelf_bracket_value("x [  a b  ] y"), Some("a b".to_string()));
	assert_eq!(parse_readelf_bracket_value("[]"), Some(String::new()));
	assert_eq!(parse_readelf_bracket_value("no brackets"), None);
	assert_eq!(parse_readelf_bracket_value("open [ only"), None);
	assert_eq!(parse_readelf_bracket_value("] before ["), None);
	assert_eq!(parse_readelf_bracket_value("a [b] [c]"), Some("b".to_string()));
}

#[test]
fn needed_libraries_are_listed_in_order() {
	let out = "\nDynamic section at offset 0x2dc8 contains 27 entries:\n  Tag        Type                         Name/Value\n 0x0000000000000001 (NEEDED)             Shared library: [libm.so.6]\r\n 0x0000000000000001 (NEEDED)             Shared library: [libc.so.6]\n 0x000000000000000c (INIT)               0x1000\n 0x0000000000000001 (NEEDED) no value here\n";
	assert_eq!(
		readelf_needed_libraries(out),
		vec!["libm.so.6".to_string(), "libc.so.6".to_string()]
	);
	assert!(readelf_needed_libraries("").is_empty());
}

#[test]
fn interpreter_is_found_on_its_line() {
	let out = "Program Headers:\n  INTERP         0x0000000000000318 0x0000000000000318\n      [Requesting program interpreter: /lib64/ld-linux-x86-64.so.2]\n  LOAD\n";
	assert_eq!(
		readelf_interpreter(out),
		Some("/lib64/ld-linux-x86-64.so.2".to_string())
	);
	assert_eq!(readelf_interpreter("no interpreter\n"), None);
	assert_eq!(
		readelf_interpreter("Requesting program interpreter:  [[x]] "),
		Some("x".to_string())
	);
}

#[test]
fn elf_magic_is_recognized() {
	assert!(has_elf_magic(&[0x7f, b'E', b'L', b'F']));
	assert!(has_elf_magic(&[0x7f, b'E', b'L', b'F', 2, 1]));
	assert!(!has_elf_magic(&[0x7f, b'E', b'L']));
	assert!(!has_elf_magic(b"#!/bin/sh"));
	assert!(!has_elf_magic(&[]));
}
