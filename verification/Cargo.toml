[package]
name = "gmt_fem"
version = "0.1.0"
edition = "2021"
publish = false

[dependencies]
num-complex = "=0.4.6"
rayon = "=1.12.0"
serde = { version = "=1.0.229", features = ["derive"] }
serde-pickle = "=1.2.0"
