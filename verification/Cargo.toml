[package]
name = "swap_wallet"
version = "0.1.0"
edition = "2021"
publish = false

[dependencies]
bip32ish = "=0.1.1"
bitcoin = { version = "=0.32.102", features = ["serde"] }
blake3 = "=1.8.7"
borsh = { version = "=1.8.1", features = ["derive"] }
byteorder = "=1.5.0"
curve25519-dalek = { version = "=5.0.0", features = ["group"] }
fallible-iterator = "=0.3.0"
frost-core = { version = "=3.0.0", features = ["internals"] }
frost-ristretto255 = "=3.0.0"
futures = "=0.3.34"
heed = "=0.22.1"
hmac = "=0.13.0"
rand = "=0.10.3"
rand_chacha = "=0.3.1"
rayon = "=1.12.0"
rustreexo = "=0.4.0"
serde = { version = "=1.0.229", features = ["derive"] }
serde_with = "=3.24.0"
sha2 = "=0.11.1"
sneed = { version = "=0.0.22", features = ["observe"] }
thiserror = "=2.0.21"
tiny-bip39 = "=2.0.0"
tokio-stream = { version = "=0.1.19", features = ["sync"] }
tracing = "=0.1.44"
utoipa = "=6.0.0"
