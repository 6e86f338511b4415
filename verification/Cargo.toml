[package]
name = "rslock"
version = "0.1.0"
edition = "2021"
publish = false

[dependencies]
rand = "0.8"
redis = { version = "*", features = ["tokio-comp"] }
tokio = { version = "1", features = ["rt", "rt-multi-thread", "time", "macros"] }
futures = "0.3"
