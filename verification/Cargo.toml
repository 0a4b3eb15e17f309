[package]
name = "grid_router"
version = "0.1.0"
edition = "2021"
publish = false

[dependencies]
lazy_static = "1"
rand = "0.9"
serde = { version = "1", features = ["derive"] }
serde_json = "1"
