[package]
name = "worklog"
version = "0.1.0"
edition = "2021"
publish = false

[dependencies]
chrono = "=0.4.45"
rusqlite = "=0.32.1"
serde = { version = "1", features = ["derive"] }
serde_json = "1"
