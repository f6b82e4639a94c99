[package]
name = "ardos_packer"
version = "0.1.0"
edition = "2021"
publish = false

[dependencies]
colored = "2"
ctrlc = "3"
libc = "0.2"
serde_json = "1"
thiserror = "1"
