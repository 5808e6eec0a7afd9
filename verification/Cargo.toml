[package]
name = "tiles_2048"
version = "0.1.0"
edition = "2021"
publish = false

[dependencies]
rand = "0.9"
rand_chacha = "0.9"
getrandom = "0.3"
rstar = "0.12"
bevy = { version = "0.17", default-features = false, features = ["std", "bevy_state", "bevy_log"] }
