[package]
name = "noteme"
version = "0.1.0"
edition = "2021"
publish = false

[dependencies]
crc32c = "0.6"
blake3 = "1"
aes-gcm = "0.10"
pbkdf2 = "0.12"
sha2 = "0.10"
base64 = "0.22"
getrandom = "0.3"
serde = { version = "1", features = ["derive"] }
serde_json = "1"
fs2 = "0.4"
git2 = "0.20"
