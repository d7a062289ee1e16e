[package]
name = "convex_sat"
version = "0.1.0"
edition = "2021"
publish = false

[dependencies]
itertools = "=0.10.5"
bevy = { version = "=0.7.0", default-features = false, features = ["render", "bevy_winit", "x11"] }
num_enum = { version = "=0.5.11", features = ["complex-expressions"] }
