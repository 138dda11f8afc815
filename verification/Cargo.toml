[package]
name = "merkle_tree"
version = "0.1.0"
edition = "2021"
publish = false

[dependencies]
ark-crypto-primitives = { version = "*", features = ["sponge"] }
ark-ff = "*"
ark-secp256k1 = "*"
num-bigint = "*"
hex = "*"
once_cell = "*"
serde = { version = "*", features = ["derive"] }
serde_json = "*"
csv = "*"
