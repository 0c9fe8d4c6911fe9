[package]
name = "async-chunked-transfer"
version = "1.0.0"
edition = "2021"
publish = false

[dependencies]
tokio = "1"
