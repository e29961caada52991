[package]
name = "crit-core"
version = "0.2.0"
edition = "2021"
publish = false

[dependencies]
blake3 = "1"
regex = "1"
anyhow = "1"
clap = { version = "4", features = ["derive"] }
serde = { version = "1", features = ["derive"] }
serde_json = "1"
serde_yaml = "0.9"
toml = "0.8"
tree-sitter = "0.25"
tree-sitter-language = "0.1"
tree-sitter-javascript = "*"
tree-sitter-typescript = "*"
tree-sitter-c-sharp = "*"
tree-sitter-go = "*"
tree-sitter-rust = "*"
tree-sitter-pascal = "*"
tree-sitter-objectscript = "*"
streaming-iterator = "0.1"
owo-colors = { version = "4", features = ["supports-colors"] }
globset = "0.4"
ignore = "0.4"
rayon = "1"
libc = "0.2"
libloading = "0.8"
