[package]
name = "pathbreaker"
version = "0.1.0"
edition = "2021"
publish = false

[dependencies]
nalgebra = "*"
serde = { version = "*", features = ["derive"] }
serde_json = "*"
statrs = "*"
