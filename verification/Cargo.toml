[package]
name = "dvpn"
version = "0.1.0"
edition = "2021"
publish = false

[dependencies]
base64 = "=0.22.1"
blake3 = { version = "=1.8.7", features = ["pure"] }
chacha20poly1305 = "=0.10.1"
getrandom = "=0.3.4"
maybenot = "=2.2.2"
maybenot-machines = "=1.0.1"
rand = "=0.9.5"
rand_chacha = "=0.9.0"
serde = { version = "=1.0.229", features = ["derive"] }
serde_json = "=1.0.154"
x25519-dalek = { version = "=2.0.1", features = ["static_secrets"] }
