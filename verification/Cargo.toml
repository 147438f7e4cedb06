[package]
name = "thunder_wallet"
version = "0.1.0"
edition = "2021"
publish = false

[dependencies]
bitcoin = { version = "=0.32.102", features = ["serde"] }
blake3 = { version = "=1.8.7", features = ["pure"] }
byteorder = "=1.5.0"
ed25519-dalek = "=2.2.0"
ed25519-dalek-bip32 = "=0.3.0"
fallible-iterator = "=0.3.0"
futures = "=0.3.34"
heed = "=0.22.1"
hickory-resolver = "=0.26.3"
nonempty = "=0.12.0"
parking_lot = "=0.12.5"
quinn = { version = "=0.11.12", default-features = false, features = ["runtime-tokio", "rustls-ring"] }
rayon = "=1.12.0"
rcgen = "=0.13.2"
rustls = { version = "=0.23.46", default-features = false, features = ["ring", "std", "tls12"] }
serde = { version = "=1.0.229", features = ["derive"] }
serde_with = "=3.24.0"
sneed = { version = "=0.0.22", features = ["observe"] }
thiserror = "=2.0.21"
tiny-bip39 = "=2.0.0"
tokio = { version = "=1.54.1", features = ["rt", "sync", "time"] }
tokio-stream = { version = "=0.1.19", features = ["sync"] }
tokio-util = { version = "=0.7.20", features = ["join-map"] }
tracing = "=0.1.44"
url = "=2.5.8"
utoipa = "=5.5.0"
