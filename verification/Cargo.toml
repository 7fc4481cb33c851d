[package]
name = "syndicus"
version = "0.1.0"
edition = "2021"
publish = false

[dependencies]
tokio = { version = "1", features = ["sync", "rt", "rt-multi-thread", "time", "macros"] }

[dev-dependencies]
rand = "0.8"
