[package]
name = "citrea_fullnode"
version = "0.1.0"
edition = "2021"
publish = false

[dependencies]
revm = { version = "7", default-features = false, features = ["std"] }
tracing = { version = "0.1", default-features = false, features = ["std"] }
