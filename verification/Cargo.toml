[package]
name = "rustgeomapping"
version = "0.1.0"
edition = "2021"
publish = false

[dependencies]
anyhow = "1"
chrono = "0.4"
nalgebra = "*"
image = { version = "*", default-features = false, features = ["png"] }
opencv = "*"
realsense-rust = "*"
realsense-sys = "*"
