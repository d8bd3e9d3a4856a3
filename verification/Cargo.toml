[package]
name = "rinkaku"
version = "0.1.0"
edition = "2021"
publish = false

[dependencies]
aho-corasick = "1"
tree-sitter = "0.25"
tree-sitter-rust = "*"
tree-sitter-go = "*"
tree-sitter-python = "*"
tree-sitter-typescript = "*"
tree-sitter-hcl = "*"
serde = { version = "1", features = ["derive"] }
clap = { version = "4", features = ["derive"] }
anyhow = "1"
env_logger = "*"
thiserror = "2"
rayon = "1"
