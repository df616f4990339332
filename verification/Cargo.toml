[package]
name = "directed"
version = "0.1.0"
edition = "2021"
publish = false

[dependencies]
daggy = "*"
thiserror = "*"
tokio = { version = "*", features = ["sync", "rt", "rt-multi-thread", "macros"] }
