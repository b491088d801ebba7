[package]
name = "dosr"
version = "0.1.0"
edition = "2021"
publish = false

[dependencies]
aes-gcm-siv = "*"
rustfft = "*"
hound = "*"
anyhow = "*"
clap = { version = "*", features = ["derive"] }
k256 = { version = "*", features = ["ecdh", "pkcs8", "sha256", "std"] }
