[package]
name = "roguemap"
version = "0.1.0"
edition = "2021"
publish = false

[dependencies]
bevy = { version = "=0.17.3", default-features = false }
chacha20 = { version = "0.10", features = ["rng"] }
rand = "0.10"
