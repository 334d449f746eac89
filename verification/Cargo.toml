[package]
name = "powergrid"
version = "0.1.0"
edition = "2021"
publish = false

[dependencies]
serde = { version = "=1.0.229", features = ["derive"] }
serde_json = "=1.0.154"
rand = { version = "0.8", features = ["small_rng"] }
