[package]
name = "metashrew"
version = "0.1.0"
edition = "2021"
publish = false

[dependencies]
anyhow = "=1.0.104"
bincode = "=1.3.3"
blake2 = "=0.10.6"
hex = "=0.4.3"
primitive-types = "=0.12.2"
serde = { version = "=1.0.229", features = ["derive"] }
serde_json = "=1.0.154"
sha2 = "=0.10.9"
tiny-keccak = { version = "=2.0.2", features = ["keccak"] }
zstd = "0.13"
