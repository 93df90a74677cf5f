[package]
name = "signed_distance_field"
version = "0.1.0"
edition = "2021"
publish = false

[dependencies]
half = "*"
image = { version = "*", default-features = false }
