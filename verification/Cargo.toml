[package]
name = "trace4d"
version = "0.1.0"
edition = "2021"
publish = false

[dependencies]
glium = "0.35"
glutin-winit = "0.5"
winit = "0.30"
image = { version = "0.25", default-features = false, features = ["png"] }
itertools = "0.13"
