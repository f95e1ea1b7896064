[package]
name = "merge_config_files"
version = "0.1.0"
edition = "2021"

[dependencies]
serde = { version = "*", features = ["derive"] }
serde_json = "*"
toml = "*"
thiserror = "*"
wildcard = "*"
