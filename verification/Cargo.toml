[package]
name = "btc-model-trainer"
version = "0.2.0"
edition = "2021"
publish = false

[dependencies]
anyhow = "1"
arrow = { version = "53", default-features = false }
async-trait = "0.1"
bytemuck = "1"
chrono = "0.4"
clap = { version = "4", features = ["derive"] }
csv = "1"
parquet = { version = "53", default-features = false, features = ["arrow", "snap"] }
rayon = "1"
reqwest = { version = "0.12", default-features = false, features = ["json", "rustls-tls"] }
serde = { version = "1", features = ["derive"] }
serde_json = "1"
tokio = { version = "1", features = ["macros", "rt-multi-thread", "time"] }
tracing = "0.1"
tracing-subscriber = { version = "0.3", features = ["env-filter"] }
zip = { version = "2", default-features = false, features = ["deflate"] }
