[package]
name = "mandelbrot"
version = "0.1.0"
edition = "2021"
publish = false

[dependencies]
image = { version = "*", default-features = false, features = ["png"] }
lerp = "*"
num-complex = "*"
num-rational = { version = "*", default-features = false, features = ["std"] }
num-traits = "*"
ordered-float = "*"
rayon = "*"
