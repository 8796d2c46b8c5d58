[package]
name = "arti_chat_daemon"
version = "0.1.0"
edition = "2021"
publish = false

[dependencies]
ed25519-dalek = { version = "*", features = ["rand_core"] }
x25519-dalek = { version = "*", features = ["static_secrets"] }
chacha20poly1305 = "*"
hkdf = "*"
sha2 = "*"
rand = "*"
rand_core = { version = "*", features = ["getrandom"] }

[dev-dependencies]
hex = "*"
serde_json = "*"
