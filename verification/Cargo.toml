[package]
name = "factorization_hyperopt"
version = "0.1.0"
edition = "2021"
publish = false

[dependencies]
rand = "=0.8.8"
csv = "=1.4.0"
serde = { version = "=1.0.229", features = ["derive"] }
serde_json = "=1.0.151"
