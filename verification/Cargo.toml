[package]
name = "tempo-replay"
version = "0.1.0"
edition = "2021"
publish = false

[dependencies]
alloy = { version = "=2.5.0", default-features = false, features = ["std", "consensus", "rlp"] }
anyhow = "1"
clap = { version = "4", default-features = false, features = ["std", "derive", "help"] }
futures-util = { version = "0.3", default-features = false, features = ["std"] }
metrics = "0.24"
metrics-exporter-prometheus = { version = "=0.18.3", default-features = false, features = ["http-listener"] }
reqwest = { version = "=0.12.28", default-features = false }
serde = { version = "1", features = ["derive"] }
serde_json = "=1.0.154"
tokio = { version = "1", features = ["rt-multi-thread", "macros", "sync", "time", "signal"] }
tokio-util = "0.7"
toml = "=1.1.8"
tracing = "0.1"
tracing-subscriber = { version = "0.3", default-features = false, features = ["env-filter", "fmt", "json"] }
