[package]
name = "wave_function_collapse"
version = "0.1.0"
edition = "2021"
publish = false

[dependencies]
bitvec = "1"
rand = "0.8"
image = { version = "0.24", default-features = false, features = ["png"] }
indicatif = "0.17"
