[package]
name = "bundler_core"
version = "0.1.0"
edition = "2021"
publish = false

[dependencies]
dashmap = "=5.5.3"
indexmap = "=2.14.2"
serde = { version = "=1.0.229", features = ["derive"] }
anyhow = "=1.0.104"
rayon = "=1.12.0"
regex = "1"
