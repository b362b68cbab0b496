[package]
name = "ray_accel"
version = "0.1.0"
edition = "2021"
publish = false

[dependencies]
nalgebra = "0.33"
rand = "0.9"
rand_pcg = "0.9"
image = { version = "0.25", default-features = false, features = ["png"] }
exr = "1"
