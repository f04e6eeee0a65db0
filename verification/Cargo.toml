[package]
name = "p4_analyzer"
version = "0.1.0"
edition = "2021"
publish = false

[dependencies]
tokio = { version = "=1.53.2", features = ["full"] }
tower-lsp = "=0.20.0"
tree-sitter = "=0.20.10"
