[package]
name = "knf"
version = "0.1.0"
edition = "2021"
publish = false

[dependencies]
anyhow = "1"
clap = { version = "4", features = ["derive"] }
indexmap = "2"
serde = { version = "1", features = ["derive"] }
serde_json = { version = "1", features = ["preserve_order"] }
thiserror = "2"
toml = { version = "*", features = ["preserve_order"] }
walkdir = "2"

[dev-dependencies]
tempfile = "3"
