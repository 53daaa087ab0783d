[package]
name = "vx"
version = "0.1.0"
edition = "2021"
publish = false

[dependencies]
sled = "0.34"
xxhash-rust = { version = "0.8", features = ["xxh3"] }
clap = { version = "4", features = ["derive"] }
