[package]
name = "seq2c_rs"
version = "0.1.0"
edition = "2021"
publish = false

[dependencies]
bio = "*"
clap = { version = "4", features = ["derive"] }
coitrees = "0.4"
fnv = "1"
indexmap = "2"
rust-htslib = { version = "*", default-features = false }
rustc-hash = "*"
