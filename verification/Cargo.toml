[package]
name = "data_collector"
version = "0.1.0"
edition = "2021"
publish = false

[dependencies]
humantime = "2"
serde = { version = "1", features = ["derive"] }
toml = "*"
clap = { version = "3", features = ["cargo"] }
ctrlc = "3"
log = "0.4"
simplelog = "0.12"
anyhow = "1"
attohttpc = { version = "*", default-features = false }
modbus = "*"
