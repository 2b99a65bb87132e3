[package]
name = "sd_crypto"
version = "0.1.0"
edition = "2021"
publish = false

[dependencies]
aead = "0.5"
chacha20poly1305 = "0.10"
argon2 = "0.5"
zeroize = "1"
getrandom = "0.2"
