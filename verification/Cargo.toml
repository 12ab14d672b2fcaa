[package]
name = "prime_spatial"
version = "0.1.0"
edition = "2021"
publish = false

[dependencies]
glam = "*"
rayon = "*"
wasm-bindgen = "*"
