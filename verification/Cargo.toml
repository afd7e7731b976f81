[package]
name = "startos_net"
version = "0.1.0"
edition = "2021"
publish = false

[dependencies]
blake3 = "=1.8.7"
ed25519-dalek = "=2.2.0"
rand = "=0.9.5"
base64 = "0.22"
bech32 = "=0.11.1"
id-pool = "=0.2.2"
