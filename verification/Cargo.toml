[package]
name = "forge"
version = "0.1.0"
edition = "2021"
publish = false

[dependencies]
chrono = "0.4"
clap = { version = "4", features = ["derive"] }
colored = "*"
dirs = "*"
env_logger = "*"
eyre = "0.6"
indexmap = "2"
log = "0.4"
serde = { version = "1", features = ["derive"] }
serde_yaml = "0.9"
shellexpand = "3"
terminal_size = "*"
uuid = { version = "1", features = ["v7"] }

[dev-dependencies]
tempfile = "3"
