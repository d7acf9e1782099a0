[package]
name = "lau-plato-nervous"
version = "0.1.0"
edition = "2021"
publish = false

[dependencies]
nalgebra = { version = "0.33", features = ["serde-serialize"] }
serde = { version = "1", features = ["derive"] }

[dev-dependencies]
serde_json = "1"
