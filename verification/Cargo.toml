[package]
name = "domino"
version = "0.1.0"
edition = "2021"
publish = false

[dependencies]
regex = "1"
rustc-hash = "2"
serde = { version = "1", features = ["derive"] }
serde_json = "1"
tracing = "0.1"
oxc_resolver = "*"
