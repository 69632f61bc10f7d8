[package]
name = "anonify"
version = "0.1.0"
edition = "2021"
publish = false

[dependencies]
aes-gcm = "0.10"
base64 = "0.13"
ed25519-dalek = "1"
parity-scale-codec = "1.3"
rand = "0.7"
sha2 = "0.8"
tiny-keccak = "1"
x25519-dalek = "1"
