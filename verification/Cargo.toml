[package]
name = "clignote"
version = "0.1.0"
edition = "2021"
publish = false

[dependencies]
anyhow = "1"
crossterm = "*"
ratatui = "*"
clap = { version = "4", features = ["derive"] }
