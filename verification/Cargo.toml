[package]
name = "analysis_cache"
version = "0.1.0"
edition = "2021"
publish = false

[dependencies]
blake3 = "*"
chrono = "*"
serde = { version = "*", features = ["derive"] }
serde_json = "*"
tokio = { version = "*", features = ["rt-multi-thread", "macros", "io-std", "io-util", "fs", "sync"] }
tower-lsp = "*"
tree-sitter-test = "*"
