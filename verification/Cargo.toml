[package]
name = "asterisk"
version = "0.1.0"
edition = "2021"
publish = false

[dependencies]
anyhow = "*"
ansi_term = "*"
clap = { version = "*", features = ["derive"] }
tracing = "*"
tracing-subscriber = "*"
