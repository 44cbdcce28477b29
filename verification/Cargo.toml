[package]
name = "flashcard_core"
version = "0.1.0"
edition = "2021"
publish = false

[dependencies]
anyhow = "1"
chrono = { version = "0.4", features = ["serde"] }
glob = "0.3"
serde = { version = "1", features = ["derive"] }
toml = "*"
