[package]
name = "ws_core"
version = "0.1.0"
edition = "2021"
publish = false

[dependencies]
base64 = "*"
sha1 = "*"
simdutf8 = "*"
utf-8 = "*"
tokio = { version = "*", features = ["full"] }
