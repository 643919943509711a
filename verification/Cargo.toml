[package]
name = "zhang_hilbert"
version = "0.1.0"
edition = "2021"
publish = false

[dependencies]
array = "*"
num = "*"

[dev-dependencies]
ndarray = "*"
