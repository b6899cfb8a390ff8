[package]
name = "evolution_sim"
version = "0.1.0"
edition = "2021"
publish = false

[dependencies]
bevy = { version = "0.12", default-features = false }
rand = "0.8"
rand_distr = "0.4"
noise = "0.8"
ndarray = "0.15"
