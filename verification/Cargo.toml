[package]
name = "bilidm"
version = "0.1.0"
edition = "2021"
publish = false

[dependencies]
regex = "1"
unicode-width = "*"
bytes = "1"
crossterm = "*"
rand = "*"
ratatui = "*"
reqwest = { version = "*", features = ["json"] }
rodio = "*"
serde = { version = "1", features = ["derive"] }
serde_json = "1"
tokio = { version = "1", features = ["macros", "rt-multi-thread"] }
