[package]
name = "greensa"
version = "0.1.0"
edition = "2021"
publish = false

[dependencies]
rand = { version = "0.9", default-features = false, features = ["small_rng"] }
serde = { version = "1", features = ["derive"] }
