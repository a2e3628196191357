[package]
name = "fsm"
version = "0.1.0"
edition = "2021"
publish = false

[dependencies]
anyhow = "1"
bimap = "0.6"
clap = { version = "4", features = ["derive"] }
rustyline = "*"
serde = { version = "1", features = ["derive"] }
serde_yaml = "0.9"
