[package]
name = "summary_generate"
version = "0.1.0"
edition = "2021"
publish = false

[dependencies]
clap = "4"
mdbook = { version = "0.4", default-features = false }
semver = "1"
serde = { version = "1", features = ["derive"] }
serde_json = "1"
