[package]
name = "ddprof"
version = "0.1.0"
edition = "2021"
publish = false

[dependencies]
anyhow = "1"
futures = "0.3"
hex = "0.4"
hyper = { version = "0.14", features = ["client", "http1", "runtime"] }
hyper-rustls = "0.23"
indexmap = "2"
pin-project-lite = "0.2"
rustls = "0.20"
rustls-native-certs = "0.6"
sys-info = "0.9"
tokio = { version = "1", features = ["net", "rt", "io-util"] }
tokio-rustls = "0.23"
