[package]
name = "file_session_store"
version = "0.1.0"
edition = "2021"
publish = false

[dependencies]
tokio = { version = "*", features = ["fs", "rt", "rt-multi-thread"] }
async-trait = "*"
serde = "*"
serde_json = "*"
tower-sessions = "*"
time = "*"
