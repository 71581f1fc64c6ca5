[package]
name = "herdr_branch_labels"
version = "0.1.0"
edition = "2021"
publish = false

[dependencies]
fancy-regex = "*"
serde_json = "*"
sha2 = "*"
fs2 = "*"
libc = "*"
