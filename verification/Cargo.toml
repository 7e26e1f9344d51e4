[package]
name = "lau-spectral-zeta"
version = "0.1.0"
edition = "2021"
publish = false

[dependencies]
nalgebra = "=0.33.3"
num-complex = { version = "=0.4.6", features = ["serde"] }
serde = { version = "=1.0.229", features = ["derive"] }

[dev-dependencies]
serde_json = "=1.0.154"
approx = "=0.5.1"
