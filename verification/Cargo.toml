[package]
name = "better_rng"
version = "0.1.0"
edition = "2021"
publish = false

[dependencies]
getrandom = "0.2"
godot = "*"
rand_core = "0.6"
rand_pcg = "0.3"
