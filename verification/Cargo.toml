[package]
name = "card_battle"
version = "0.1.0"
edition = "2021"
publish = false

[dependencies]
bevy = { version = "=0.13.2", default-features = false }
bevy_prng = { version = "=0.5.2", features = ["wyrand"] }
bevy_rand = { version = "=0.5.2", features = ["wyrand"] }
num-derive = "=0.4.2"
num-traits = "=0.2.19"
rand = "=0.8.8"
serde = { version = "=1.0.229", features = ["derive"] }
