[package]
name = "tile_world"
version = "0.1.0"
edition = "2021"
publish = false

[dependencies]
ahash = "0.8"
bytemuck = { version = "*", features = ["derive"] }
easy-gpu = "*"
hecs = "*"
rand = "0.9"
rayon = "*"
serde = { version = "*", features = ["derive"] }
winit = "0.30"
