[package]
name = "ranked_cache"
version = "0.1.0"
edition = "2021"
publish = false

[dependencies]
chromadb = "*"
rand = "*"
serde = { version = "*", features = ["derive"] }
serde_json = "*"
tokio = { version = "*", features = ["macros", "rt-multi-thread"] }
