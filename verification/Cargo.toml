[package]
name = "kv"
version = "0.1.0"
edition = "2021"
publish = false

[dependencies]
flate2 = "1"
sled = "0.34"
tokio = { version = "1", features = ["rt", "net", "io-util", "macros"] }
tokio-rustls = "0.26"
