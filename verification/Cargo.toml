[package]
name = "vanity_search"
version = "0.1.0"
edition = "2021"
publish = false

[dependencies]
algo_rust_sdk = "=1.0.3"
rand = "=0.10.3"
rmp = "=0.8.11"
clap = { version = "=4.6.7", features = ["derive"] }
crossterm = "=0.29.0"
ratatui = "=0.30.2"
thousands = "=0.2.0"
serde_json = "=1.0.151"
