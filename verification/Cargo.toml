[package]
name = "rag_core"
version = "0.1.0"
edition = "2021"
publish = false

[dependencies]
anyhow = "*"
once_cell = "*"
pdf-extract = "*"
quick-xml = "*"
reqwest = { version = "*", default-features = false, features = ["json"] }
serde = { version = "*", features = ["derive"] }
serde_json = "*"
