[package]
name = "registry_store"
version = "0.1.0"
edition = "2021"
publish = false

[dependencies]
anyhow = "1"
fs-err = "2"
serde = { version = "1", features = ["derive"] }
serde_json = "1"
