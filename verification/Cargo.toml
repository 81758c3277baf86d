[package]
name = "fitui"
version = "0.1.0"
edition = "2021"
publish = false

[dependencies]
crossterm = "0.27"
directories = "5"
ratatui = "0.26"
rusqlite = { version = "0.31", features = ["bundled"] }
serde = { version = "1", features = ["derive"] }
serde_yaml = "0.9"
