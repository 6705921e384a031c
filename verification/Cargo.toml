[package]
name = "quack_core"
version = "0.1.0"
edition = "2021"
publish = false

[dependencies]
arrow = { version = "*", default-features = false, features = ["ipc"] }
bincode = "1"
napi = "2"
napi-derive = "2"
serde = { version = "1", features = ["derive"] }
