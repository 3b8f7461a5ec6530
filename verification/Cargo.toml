[package]
name = "local_vectored_llm"
version = "0.1.0"
edition = "2021"
publish = false

[dependencies]
anyhow = "1"
chromadb = "*"
chrono = "0.4"
clap = { version = "4", features = ["derive"] }
colored = "*"
futures = "0.3"
ollama-rs = "*"
pdf-extract = "*"
reqwest = { version = "*", features = ["json"] }
serde = { version = "1", features = ["derive"] }
serde_json = "1"
tempfile = "3"
thiserror = "*"
tokio = { version = "1", features = ["macros", "rt-multi-thread"] }
tracing = "0.1"
tracing-subscriber = "0.3"
walkdir = "2"
