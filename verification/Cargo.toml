[package]
name = "codex_sessions"
version = "0.1.0"
edition = "2021"
publish = false

[dependencies]
base64 = "*"
chrono = "*"
serde_json = "*"
walkdir = "*"
dirs = "*"
