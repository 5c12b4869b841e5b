[package]
name = "swaykeys"
version = "0.1.0"
edition = "2021"
publish = false

[dependencies]
clap = { version = "4", features = ["derive"] }
glob = "0.3"
nucleo-matcher = "0.3"
ratatui = "*"
serde = { version = "1", features = ["derive"] }
serde_json = "1"
xkbcommon-dl = "*"
