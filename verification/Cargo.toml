[package]
name = "nr"
version = "0.1.0"
edition = "2021"
publish = false

[dependencies]
nucleo-matcher = "*"
sha2 = "*"
anyhow = "*"
crossterm = "*"
ratatui = "*"
dirs = "*"
globset = "*"
serde = { version = "*", features = ["derive"] }
serde_json = { version = "*", features = ["preserve_order"] }
serde_yaml_ng = "*"
thiserror = "*"
