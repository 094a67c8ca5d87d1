[package]
name = "llm_rag"
version = "0.1.0"
edition = "2021"
publish = false

[dependencies]
ndarray = "0.15"
tokenizers = { version = "0.15", default-features = false, features = ["onig"] }
axum = "0.7"
tokio = { version = "1", features = ["macros", "rt-multi-thread", "net"] }
dotenv = "0.15"
env_logger = "0.11"
polodb_core = "4"
rayon = "1"
serde = { version = "1", features = ["derive"] }
serde_json = "1"
ollama-rs = "0.1"
reqwest = { version = "0.11", default-features = false, features = ["json"] }
