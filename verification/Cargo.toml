[package]
name = "codeio"
version = "0.1.0"
edition = "2021"
publish = false

[dependencies]
sha2 = "0.10"
hex = "0.4"
anyhow = "1"
clap = { version = "4", features = ["derive"] }
toml = "0.8"
ignore = "0.4"
