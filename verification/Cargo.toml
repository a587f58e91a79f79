[package]
name = "pabs_crf"
version = "0.1.0"
edition = "2021"
publish = false

[dependencies]
bincode = "1.3"
ed25519-dalek = { version = "2", features = ["rand_core"] }
rand = "0.8"
serde = { version = "1", features = ["derive"] }
sha2 = "0.10"
sha3 = "0.10"
subtle = "2"
tracing = "0.1"
zeroize = { version = "1", features = ["derive"] }
zstd = "0.13"
