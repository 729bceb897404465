[package]
name = "sse_decode"
version = "0.1.0"
edition = "2021"
publish = false

[dependencies]
bytes = "1"
futures = { version = "0.3", default-features = false, features = ["std"] }
http-body = "1"
pin-project = "1"
