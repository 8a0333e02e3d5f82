[package]
name = "tree_grepper"
version = "0.1.0"
edition = "2021"
publish = false

[dependencies]
tree-sitter = "=0.27.0"
tree-sitter-rust = "=0.24.2"
tree-sitter-elm = "=5.9.4"
tree-sitter-javascript = "=0.25.0"
streaming-iterator = "=0.1.9"
md5 = "=0.8.1"
anyhow = "=1.0.104"
serde = { version = "=1.0.229", features = ["derive"] }
flate2 = "=1.1.10"
tar = "=0.4.46"
indicatif = "=0.18.6"
redis = "=1.7.1"
futures = "=0.3.34"
tokio = { version = "=1.53.2", features = ["macros", "rt-multi-thread"] }
tikv-client = "=0.4.0"
