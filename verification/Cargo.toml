[package]
name = "tokenitis"
version = "0.1.0"
edition = "2021"
publish = false

[dependencies]
solana-program = "=2.3.0"
spl-token = { version = "=6.0.0", features = ["no-entrypoint"] }

[dev-dependencies]
borsh = "=1.8.1"
