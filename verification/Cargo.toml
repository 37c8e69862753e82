[package]
name = "mandate-core"
version = "0.1.0"
edition = "2021"
publish = false

[dependencies]
blake3 = { version = "1", features = ["pure"] }
hex = "0.4"
k256 = { version = "0.13", default-features = false, features = ["ecdsa", "std"] }
sha3 = "0.10"
serde = { version = "1", features = ["derive"] }
serde_json = "1"
thiserror = "1"
