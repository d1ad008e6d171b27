[package]
name = "tectonic"
version = "0.1.0"
edition = "2021"
publish = false

[dependencies]
image = { version = "0.25", default-features = false, features = ["png"] }
rand = "0.8"
rand_chacha = "0.3"
rayon = "1"
