[package]
name = "dwatch"
version = "0.1.0"
edition = "2021"
publish = false

[dependencies]
ansi_term = "*"
ansi-escapes = "*"
anyhow = "*"
clap = { version = "*", features = ["derive"] }
parking_lot = "*"
signal-hook = "*"
wait-timeout = "*"
