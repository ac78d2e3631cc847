[package]
name = "difflog"
version = "0.1.0"
edition = "2021"
publish = false

[dependencies]
anyhow = "*"
bstr = "*"
tokio = { version = "*", features = ["process", "io-util", "rt", "macros"] }
tracing = "*"
tracing-subscriber = "*"
