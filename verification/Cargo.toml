[package]
name = "caso_meshing"
version = "0.1.0"
edition = "2021"
publish = false

[dependencies]
arrow-array = "*"
arrow-ipc = "*"
arrow-schema = "*"
serde = { version = "1", features = ["derive"] }
serde_json = "1"
spade = "2"
