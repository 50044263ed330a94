[package]
name = "helium_wallet"
version = "0.1.0"
edition = "2021"
publish = false

[dependencies]
aes-gcm = "=0.11.1"
argon2 = "=0.6.0"
ed25519-dalek = "=3.0.0"
sha2 = "=0.11.0"
bs58 = "=0.5.1"
getrandom = "=0.4.3"
sharks = "=0.5.0"
bip39 = "=3.0.0"
serde_json = "=1.0.151"
structopt = "=0.3.26"
