[package]
name = "mandelbrot"
version = "0.1.0"
edition = "2021"

[dependencies]
crossbeam = "0.8"
image = { version = "0.25", default-features = false, features = ["png"] }
num = "0.4"
