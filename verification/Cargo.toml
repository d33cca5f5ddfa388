[package]
name = "cascades"
version = "0.1.0"
edition = "2021"
publish = false

[dependencies]
ahash = "*"
xxhash-rust = { version = "*", features = ["xxh3"] }
