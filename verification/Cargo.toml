[package]
name = "task_reminder"
version = "0.1.0"
edition = "2021"
publish = false

[dependencies]
anyhow = "1"
nanoid = "0.4"
notify-rust = "4"
serde = { version = "1", features = ["derive"] }
serde_json = "1"
time = { version = "0.3", features = ["local-offset", "parsing", "formatting"] }
tokio = { version = "1", features = ["rt", "sync", "time", "macros"] }
