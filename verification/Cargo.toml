[package]
name = "lagrange_srs"
version = "0.1.0"
edition = "2021"
publish = false

[dependencies]
ark-bn254 = "0.4"
ark-ec = "0.4"
ark-ff = "0.4"
ark-poly = "0.4"

[dev-dependencies]
ark-std = "0.4"
