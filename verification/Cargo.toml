[package]
name = "zk"
version = "0.1.0"
edition = "2021"
publish = false

[dependencies]
regex = "*"
uuid = { version = "*", features = ["v4"] }
chrono = "*"
clap = { version = "*", features = ["derive"] }
colored = "*"
ratatui = "*"
serde = { version = "*", features = ["derive"] }
toml = "*"
tera = { version = "*", default-features = false }
walkdir = "*"
