[package]
name = "noir_wallet"
version = "0.1.0"
edition = "2021"
publish = false

[dependencies]
sha2 = "=0.10.9"
sha3 = "=0.10.9"
ripemd = "=0.1.3"
hmac = "=0.12.1"
pbkdf2 = "=0.12.2"
k256 = "=0.13.4"
getrandom = "=0.2.17"
bip39 = "=2.2.2"
bs58 = "=0.5.1"
serde = { version = "=1.0.229", features = ["derive"] }
serde_json = "1"

[dev-dependencies]
bech32 = "=0.11.1"
hex = "=0.4.3"
