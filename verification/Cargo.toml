[package]
name = "clipboard_history"
version = "0.1.0"
edition = "2021"
publish = false

[dependencies]
age = "=0.11.5"
bech32 = "=0.9.1"
x25519-dalek = "=2.0.1"
base64 = "=0.22.1"
sha2 = "=0.10.9"
zeroize = "=1.9.1"
secrecy = { version = "=0.8.0", features = ["serde"] }
serde = { version = "=1.0.229", features = ["derive"] }
serde_json = "=1.0.154"
parking_lot = "=0.12.5"
thiserror = "=2.0.21"
