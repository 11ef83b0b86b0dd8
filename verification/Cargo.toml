[package]
name = "bitobase"
version = "0.1.0"
edition = "2021"
publish = false

[dependencies]
dashmap = "6"
tokio = { version = "1", features = ["rt-multi-thread", "net", "io-util", "sync"] }
