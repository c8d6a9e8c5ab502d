[package]
name = "stellar_poker"
version = "0.1.0"
edition = "2021"
publish = false

[dependencies]
soroban-sdk = "=29.0.1"

[dev-dependencies]
soroban-sdk = { version = "=29.0.1", features = ["testutils"] }
