[package]
name = "nyaland"
version = "0.1.0"
edition = "2021"
publish = false

[dependencies]
urlencoding = "=2.1.3"
dirs = "=7.0.0"
serde = { version = "=1.0.229", features = ["derive"] }
serde_json = "=1.0.154"
chrono = "=0.4.45"
tokio = { version = "=1.54.1", features = ["rt-multi-thread", "sync", "macros", "time"] }
librqbit = { version = "=9.1.0", default-features = false, features = ["rust-tls"] }
clap = { version = "=4.6.7", features = ["derive"] }
anyhow = "=1.0.104"
colored = "=3.1.1"
