[package]
name = "flameview"
version = "0.1.0"
edition = "2021"
publish = false

[dependencies]
anyhow = "1"
clap = { version = "4", features = ["derive"] }
ratatui = "*"
inferno = { version = "*", default-features = false }
tempfile = "3"
cargo_metadata = "*"
