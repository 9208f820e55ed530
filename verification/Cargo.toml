[package]
name = "sec_net_engine"
version = "0.2.0"
edition = "2021"
publish = false

[dependencies]
serde = { version = "1", features = ["derive"] }
serde_json = "1"
thiserror = "1"
log = "0.4"
tracing = "0.1"
tracing-subscriber = { version = "0.3", features = ["env-filter"] }
tokio = { version = "1", features = ["macros", "rt-multi-thread"] }
hnsw_rs = "*"
anndists = "*"
qdrant-client = { version = "*", default-features = false, features = ["serde"] }
