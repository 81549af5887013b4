[package]
name = "secret_santa"
version = "0.1.0"
edition = "2021"
publish = false

[dependencies]
curv-kzen = "=0.10.0"
rand = "=0.8.8"
