[package]
name = "noteboks"
version = "0.1.0"
edition = "2021"

[dependencies]
tree-sitter = "=0.20.10"
tree-sitter-org = "=1.3.3"
tower-lsp = "=0.20.0"
tokio = { version = "=1.53.2", features = ["full"] }
walkdir = "=2.5.0"
