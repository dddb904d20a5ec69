[package]
name = "rowsink"
version = "0.1.0"
edition = "2021"
publish = false

[dependencies]
napi = { version = "=3.15.0", features = ["async", "napi4"] }
napi-derive = "=3.6.13"
tokio = { version = "=1.54.1", features = ["net", "sync"] }
tokio-util = { version = "=0.7.20", features = ["compat"] }
uuid = "=1.29.0"
