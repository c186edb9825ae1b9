[package]
name = "engine_core"
version = "0.1.0"
edition = "2021"
publish = false

[dependencies]
anyhow = "=1.0.104"
bincode = "=1.3.3"
serde = { version = "=1.0.229", features = ["derive"] }
nalgebra = { version = "=0.33.3", features = ["serde-serialize"] }
rand = "=0.8.8"
renet = "=1.2.0"
renet_netcode = "=1.2.0"
winit = { version = "=0.30.13", features = ["serde"] }
inventory = "=0.3.25"
