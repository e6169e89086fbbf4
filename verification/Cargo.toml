[package]
name = "bogobarf"
version = "0.1.0"
edition = "2021"
publish = false

[dependencies]
tokio = { version = "1", features = ["rt-multi-thread", "net", "sync", "io-util"] }
tokio-util = { version = "0.7", features = ["codec"] }
bytes = "1"
futures = "0.3"
serde = { version = "1", features = ["derive"] }
serde_cbor = "0.11"
log = "0.4"
simplelog = "0.12"
clap = "4"
