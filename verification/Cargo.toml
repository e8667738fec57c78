[package]
name = "lau-harmonic-analysis"
version = "0.1.0"
edition = "2021"
publish = false

[dependencies]
nalgebra = "*"
num-complex = "*"
serde = { version = "1", features = ["derive"] }

[dev-dependencies]
serde_json = "1"
