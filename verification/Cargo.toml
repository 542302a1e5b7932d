[package]
name = "logblock"
version = "0.1.0"
edition = "2021"
publish = false

[dependencies]
arrow = { version = "*", default-features = false }
parking_lot = "*"
tokio = { version = "*", default-features = false, features = ["sync"] }

[dev-dependencies]
serde_json = "*"
