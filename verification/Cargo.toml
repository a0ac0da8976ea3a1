[package]
name = "delayed_stream"
version = "0.1.0"
edition = "2021"
publish = false

[dependencies]
futures = "0.3"
linked-hash-map = "0.5"
tokio = { version = "1", features = ["time"] }
