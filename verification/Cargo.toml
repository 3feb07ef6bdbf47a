[package]
name = "rugst"
version = "0.2.2"
edition = "2021"
publish = false

[dependencies]
anyhow = "=1.0.104"
fastembed = { version = "=7.5.0", default-features = false, features = ["ort-load-dynamic", "hf-hub-rustls-tls"] }
rmcp = { version = "=3.8.0", features = ["server", "macros", "transport-io"] }
rusqlite = { version = "=0.41.1", features = ["bundled"] }
schemars = "=1.2.3"
serde = { version = "=1.0.229", features = ["derive"] }
tokio = { version = "=1.54.1", features = ["macros", "rt-multi-thread", "io-std"] }
