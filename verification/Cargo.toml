[package]
name = "fractals"
version = "0.1.0"
edition = "2021"
publish = false

[dependencies]
glium = "0.36"
rustc-serialize = "0.3"
