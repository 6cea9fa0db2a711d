[package]
name = "filesplit"
version = "1.0.0"
edition = "2021"
publish = false

[dependencies]
csv = "1"
humansize = "2"
clap = { version = "4", features = ["derive"] }
colored = "2"
indicatif = "0.17"
serde = { version = "1", features = ["derive"] }
serde_json = "1"
thiserror = "1"
toml = "0.8"
anyhow = "1"
