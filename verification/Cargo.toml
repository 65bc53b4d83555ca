[package]
name = "heightmap"
version = "0.1.0"
edition = "2021"
publish = false

[dependencies]
image = { version = "0.25", default-features = false, features = ["png"] }
kiss3d = "0.35"
rand = "0.4"
