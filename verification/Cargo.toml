[package]
name = "ogg"
version = "0.9.1"
edition = "2021"
publish = false

[dependencies]
byteorder = "1"
bytes = "1"
futures = "0.3"
futures-io = "0.3"
futures-sink = "0.3"
pin-project = "1"
tokio = { version = "1", features = ["io-util"] }
tokio-util = { version = "0.7", features = ["codec", "compat"] }
