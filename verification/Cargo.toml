[package]
name = "branch_hints"
version = "0.1.0"
edition = "2021"
publish = false

[dependencies]
wasmparser = "*"
anyhow = "*"

[dev-dependencies]
leb128 = "*"
