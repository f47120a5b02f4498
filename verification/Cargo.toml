[package]
name = "simple_geyser"
version = "0.1.0"
edition = "2021"
publish = false

[dependencies]
agave-geyser-plugin-interface = "=2.0.25"
log = "0.4"
solana-logger = "=2.0.25"
solana-program = "=2.0.25"
solana-sdk = "=2.0.25"
