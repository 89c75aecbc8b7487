[package]
name = "corvalis-recon"
version = "0.1.0"
edition = "2021"
publish = false

[dependencies]
tree-sitter = "=0.24.7"
tree-sitter-language = "=0.1.9"
tree-sitter-typescript = "=0.23.2"
tree-sitter-javascript = "0.23"
tree-sitter-svelte-ng = "=1.0.2"
streaming-iterator = "=0.1.9"
serde = { version = "=1.0.229", features = ["derive"] }
serde_json = "=1.0.154"
json5 = "=0.4.1"
anyhow = "=1.0.104"
clap = { version = "=4.6.7", features = ["derive"] }
ignore = "=0.4.34"
rayon = "=1.12.0"

[dev-dependencies]
tempfile = "=3.27.0"
