[package]
name = "ancf"
version = "0.1.0"
edition = "2021"
publish = false

[dependencies]
zstd = "*"
lz4_flex = "*"
xxhash-rust = { version = "*", features = ["xxh3"] }
anyhow = "*"
clap = { version = "*", features = ["derive"] }
