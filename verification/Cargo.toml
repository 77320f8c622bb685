[package]
name = "micrograd"
version = "0.1.0"
edition = "2021"
publish = false

[dependencies]
rustc_apfloat = "*"
libm = "*"
bytemuck = "*"
uuid = { version = "*", features = ["v4"] }
petgraph = "*"
rand = "*"
