[package]
name = "cherry_sight"
version = "0.1.0"
edition = "2021"
publish = false

[dependencies]
anyhow = "=1.0.104"
lasso = "=0.7.3"
lsp-types = "*"
num_cpus = "=1.17.0"
regex = "=1.13.1"
serde = { version = "=1.0.229", features = ["derive"] }
serde_json = "=1.0.154"
tree-sitter = "=0.27.1"
tree-sitter-cpp = "=0.23.4"

[dev-dependencies]
tempfile = "=3.27.0"
