[package]
name = "notion_river"
version = "0.1.0"
edition = "2021"
publish = false

[dependencies]
xkbcommon = "0.8"
serde = { version = "1", features = ["derive"] }
serde_json = "1"
toml = "*"
dirs = "*"
log = "0.4"
env_logger = "*"
