[package]
name = "worldgen"
version = "0.1.0"
edition = "2021"
publish = false

[dependencies]
futures-lite = "2"
noise = { version = "0.9", default-features = false }
rand = "0.8"
rayon = "1"
