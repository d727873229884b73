[package]
name = "space_carver"
version = "0.1.0"
edition = "2021"
publish = false

[dependencies]
nalgebra = "*"
ordered-float = "*"
image = { version = "*", default-features = false, features = ["png"] }
