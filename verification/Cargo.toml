[package]
name = "multi_readers"
version = "0.7.0"
edition = "2021"
publish = false

[dependencies]
tokio = { version = "1", default-features = false }
