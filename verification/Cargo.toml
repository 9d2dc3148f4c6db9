[package]
name = "archetype_ecs"
version = "0.1.0"
edition = "2021"
publish = false

[dependencies]
slotmap = "=1.1.1"
rustc-hash = "=2.1.3"
serde = { version = "=1.0.229", features = ["derive"] }
serde_json = "=1.0.154"
smallvec = "1"
glam = { version = "0.30", features = ["serde"] }
parking_lot = "0.12"
