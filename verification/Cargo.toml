[package]
name = "stinkpot"
version = "0.1.0"
edition = "2021"
publish = false

[dependencies]
clap = { version = "4", features = ["derive", "cargo"] }
crossterm = "0.28"
fuzzy-matcher = "0.3"
ratatui = "0.29"
rusqlite = { version = "0.32", features = ["bundled"] }
thiserror = "2"
