[package]
name = "cargo-storage"
version = "0.4.1"
edition = "2021"
publish = false

[dependencies]
clap = { version = "4", features = ["derive"] }
clap_complete = "4"
crossterm = "0.28"
eyre = "0.6"
figment = { version = "0.10", features = ["toml", "env"] }
homedir = "*"
ignore = "0.4"
mdquery-rs = "*"
ratatui = "0.29"
rayon = "1"
serde = { version = "1", features = ["derive"] }
tracing = "0.1"
