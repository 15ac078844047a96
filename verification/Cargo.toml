[package]
name = "norn-rs"
version = "0.4.0"
edition = "2021"
publish = false

[dependencies]
anyhow = "1"
bip39 = "2"
blake2 = "0.10"
chacha20poly1305 = "0.10"
clap = { version = "4", features = ["derive"] }
clap_complete = "4"
ed25519-dalek = { version = "2", features = ["rand_core"] }
hex = "0.4"
mdns-sd = "*"
ml-dsa = "*"
qrcode = { version = "0.14", default-features = false }
quinn = { version = "0.11", default-features = false, features = ["runtime-tokio", "rustls-ring"] }
rand = "0.8"
rcgen = "0.13"
rustls = { version = "0.23", default-features = false, features = ["ring", "std"] }
rustls-pemfile = "2"
rustls-pki-types = "1"
serde = { version = "1", features = ["derive"] }
serde_json = "1"
socket2 = { version = "0.5", features = ["all"] }
subtle = "2"
tokio = { version = "1", features = ["full"] }
toml = "0.8"
tracing = "0.1"
tracing-subscriber = { version = "0.3", features = ["env-filter"] }
x25519-dalek = { version = "2", features = ["static_secrets"] }
zeroize = "1"
