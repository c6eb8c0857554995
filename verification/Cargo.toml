[package]
name = "py_spy_core"
version = "0.1.0"
edition = "2021"
publish = false

[dependencies]
anyhow = "*"
flate2 = "*"
goblin = "*"
memmap2 = "*"
page_size = "*"
tempfile = "*"
zstd = "*"

[dev-dependencies]
serde_json = "*"
