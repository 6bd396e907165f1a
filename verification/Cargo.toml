[package]
name = "sola"
version = "0.1.0"
edition = "2021"
publish = false

[dependencies]
pulldown-cmark = "0.12"
tree-sitter = "*"
tree-sitter-rust = "*"
serde = { version = "1", features = ["derive"] }
toml = "0.8"
anyhow = "1"
dirs = "5"
thiserror = "1"
ignore = "0.4"
notify = "6"
tokio = { version = "1", default-features = false, features = ["sync", "rt", "macros"] }
