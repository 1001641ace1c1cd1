[package]
name = "parsm"
version = "0.1.0"
edition = "2021"
publish = false

[dependencies]
csv = "1"
serde_json = { version = "1", features = ["preserve_order"] }
toml = "0.8"
serde_yaml_ng = "0.10"
serde_yaml = "0.9"
clap = { version = "4", features = ["derive"] }
tracing = "0.1"
tracing-subscriber = "0.3"
