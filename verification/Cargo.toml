[package]
name = "kobo-core"
version = "0.1.0"
edition = "2021"
publish = false

[dependencies]
anyhow = "=1.0.104"
clap = { version = "=4.6.7", features = ["derive"] }
dirs = "5"
png = "=0.17.16"
serde = { version = "1", features = ["derive"] }
toml = "0.8"
