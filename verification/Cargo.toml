[package]
name = "relaxed_keygen"
version = "0.1.0"
edition = "2021"
publish = false

[dependencies]
generic-ec = { version = "0.4", features = ["curve-secp256k1", "serde", "udigest"] }
generic-ec-zkp = { version = "0.4", features = ["serde", "udigest"] }
generic-array = { version = "0.14", features = ["serde"] }
sha2 = "0.10"
rand_core = "0.6"
round-based = { version = "*", features = ["derive", "sim"] }
serde = { version = "1", features = ["derive"] }
thiserror = "2"
udigest = { version = "0.2", features = ["derive"] }

[dev-dependencies]
rand = "0.8"
rand_dev = "0.1"
