[package]
name = "kask"
version = "0.1.0"
edition = "2021"
publish = false

[dependencies]
chrono = "0.4"
strsim = "0.11"
clap = { version = "4", features = ["derive"] }
prettytable-rs = "0.10"
serde = { version = "1", features = ["derive"] }
serde_json = "1"
