[package]
name = "restcli"
version = "0.1.0"
edition = "2021"
publish = false

[dependencies]
urlencoding = "*"
serde = { version = "*", features = ["derive"] }
serde_json = "*"
serde_yaml = "*"
jsonpath-rust = "*"
reqwest = { version = "*", default-features = false, features = ["blocking", "json"] }
clap = { version = "*", features = ["derive"] }
env_logger = "*"
log = "*"
termion = "*"
