[package]
name = "checkbookmark"
version = "0.1.0"
edition = "2021"
publish = false

[dependencies]
md-5 = "0.10"
unicode-width = "0.2"
serde = { version = "1", features = ["derive"] }
serde_json = "1"
dirs = "6"
clap = { version = "4", features = ["derive"] }
colored = "3"
crossterm = "0.28"
ratatui = "0.29"
futures = "0.3"
tokio = { version = "1", features = ["rt-multi-thread", "macros", "time"] }
reqwest = { version = "0.12", default-features = false, features = ["rustls-tls"] }
