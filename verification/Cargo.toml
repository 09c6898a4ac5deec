[package]
name = "codescout"
version = "0.1.0"
edition = "2021"
publish = false

[dependencies]
tree-sitter = "*"
tree-sitter-rust = "*"
tree-sitter-python = "*"
tree-sitter-go = "*"
tree-sitter-typescript = "*"
tree-sitter-java = "*"
tree-sitter-kotlin-ng = "*"
sha2 = "*"
hex = "*"
serde = { version = "1", features = ["derive"] }
serde_json = "1"
anyhow = "1"
async-trait = "*"
axum = "*"
clap = { version = "4", features = ["derive"] }
ignore = "*"
lsp-types = "*"
rmcp = "*"
rusqlite = { version = "*", features = ["bundled"] }
tokio = { version = "1", features = ["full"] }
tracing = "*"
tracing-appender = "*"
tracing-subscriber = { version = "*", features = ["env-filter"] }

[dev-dependencies]
tempfile = "*"
