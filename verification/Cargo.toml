[package]
name = "serde_fast_flatten"
version = "0.1.1"
edition = "2021"
publish = false

[dependencies]
serde = { version = "1", features = ["derive"] }
syn = { version = "2", features = ["full"] }
quote = "1"
proc-macro2 = "1"
serde_derive_internals = "0.29"

[dev-dependencies]
serde_json = "1"
serde_yaml = "0.9"
serde_cbor = "0.11"
bincode = "1"
bitcode = { version = "0.6", features = ["serde"] }
