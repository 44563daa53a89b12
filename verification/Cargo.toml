[package]
name = "labkit"
version = "0.1.0"
edition = "2021"
publish = false

[dependencies]
jiff = "0.2"
rand = "0.9"
itertools = "0.14"
crossbeam-channel = "0.5"
tokio = { version = "1", features = ["full"] }
tracing = "0.1"
tracing-subscriber = "0.3"
prometheus = { version = "0.14", default-features = false }
axum = "0.8"
