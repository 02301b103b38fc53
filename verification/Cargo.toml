[package]
name = "visioncortex"
version = "0.1.0"
edition = "2021"
publish = false

[dependencies]
bit-vec = "0.6"
flo_curves = "0.6"
num-traits = "0.2"
