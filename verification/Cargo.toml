[package]
name = "crit"
version = "0.1.0"
edition = "2021"
publish = false

[dependencies]
anyhow = "1"
clap = { version = "4", features = ["derive"] }
libloading = "0.8"
owo-colors = { version = "4", features = ["supports-colors"] }
serde = { version = "1", features = ["derive"] }
serde_json = "1"
serde_yaml = "0.9"
sha2 = "0.10"
streaming-iterator = "0.1"
toml = "0.8"
tree-sitter = "0.25"
tree-sitter-language = "0.1"
walkdir = "2"

[dev-dependencies]
tree-sitter-json = "0.24"
