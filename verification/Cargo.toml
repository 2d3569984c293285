[package]
name = "minecraft_but_optimized"
version = "0.1.0"
edition = "2021"
publish = false

[dependencies]
bytemuck = { version = "*", features = ["derive"] }
env_logger = "*"
glam = "*"
glyphon = "*"
log = "*"
noise = "*"
pollster = "*"
rayon = "*"
rustc-hash = "*"
wgpu = "*"
winit = "*"
