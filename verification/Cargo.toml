[package]
name = "slang_runtime"
version = "0.1.0"
edition = "2021"
publish = false

[dependencies]
semver = "1"
ariadne = "*"
anyhow = "1"
serde = { version = "1", features = ["derive"] }
serde_json = "1"
serde_yaml = "*"
