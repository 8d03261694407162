[package]
name = "libblur"
version = "0.1.0"
edition = "2021"
publish = false

[dependencies]
colorutils-rs = "*"
half = "*"
rayon = "*"
rustfft = "*"
