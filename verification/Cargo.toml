[package]
name = "parental_watchdog"
version = "0.1.0"
edition = "2021"
publish = false

[dependencies]
anyhow = "1"
chrono = "0.4"
clap = { version = "4", features = ["derive"] }
dirs = "*"
humantime = "2"
regex = "1"
serde = { version = "1", features = ["derive"] }
serde_json = "1"
users = "0.11"
