[package]
name = "cli_integration_test"
version = "0.1.0"
edition = "2021"
publish = false

[dependencies]
assert_cmd = "*"
fs_extra = "*"
tempdir = "*"
walkdir = "*"

[dev-dependencies]
predicates = "*"
