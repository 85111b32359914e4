[package]
name = "hexgame"
version = "0.1.0"
edition = "2021"
publish = false

[dependencies]
chickenwire = "=0.1.0"
rand = "=0.8.8"
bytemuck = { version = "=1.25.2", features = ["derive"] }
wgpu = "0.16"
winit = "0.28"
glyphon = "0.3"
image = { version = "0.24", default-features = false, features = ["png"] }
pollster = "0.3"
env_logger = "0.10"
