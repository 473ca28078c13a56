[package]
name = "spack"
version = "0.1.0"
edition = "2021"
publish = false

[dependencies]
bincode = { version = "=2.0.1", features = ["serde"] }
image = "=0.25.10"
serde = { version = "=1.0.229", features = ["derive"] }
