[package]
name = "codex_history"
version = "0.1.0"
edition = "2021"
publish = false

[dependencies]
serde_json = "1"
serde = { version = "1", features = ["derive"] }
anyhow = "1"
chrono = { version = "0.4", default-features = false, features = ["alloc", "now"] }
home = "0.5"
