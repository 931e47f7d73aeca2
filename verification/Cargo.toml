[package]
name = "signal_broker"
version = "0.1.0"
edition = "2021"
publish = false

[dependencies]
tokio = { version = "1", features = ["sync", "rt-multi-thread", "macros", "net", "io-util", "time"] }
uuid = { version = "1", features = ["v4"] }
base64 = "0.22"
