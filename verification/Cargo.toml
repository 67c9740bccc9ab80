[package]
name = "hyena"
version = "0.1.0"
edition = "2021"
publish = false

[dependencies]
anyhow = "*"
chrono = "*"
clap = { version = "*", features = ["derive"] }
globset = "*"
serde = { version = "*", features = ["derive"] }
serde_json = "*"
serde_yaml = "*"
walkdir = "*"
