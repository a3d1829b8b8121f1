[package]
name = "tactics_core"
version = "0.1.0"
edition = "2021"
publish = false

[dependencies]
pathfinding = "*"
rand = "0.8"
csv = "1"
serde = { version = "1", features = ["derive"] }
kafka = { version = "*", default-features = false }
