[package]
name = "line_test"
version = "0.1.0"
edition = "2021"
publish = false

[dependencies]
anyhow = "1"
assert_cmd = "2"
cargo_metadata = "*"
clap = { version = "4", features = ["derive", "cargo"] }
ctrlc = "3"
hex = "0.4"
lcov = "*"
once_cell = "1"
remain = "*"
serde_json = "1"
sha2 = "0.10"
tempfile = "3"
unidiff = "*"
