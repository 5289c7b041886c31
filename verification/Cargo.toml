[package]
name = "render_core"
version = "0.1.0"
edition = "2021"
publish = false

[dependencies]
slotmap = "*"
guillotiere = "*"
anyhow = "*"
bytemuck = { version = "*", features = ["derive"] }
cosmic-text = "*"
env_logger = "*"
glam = { version = "*", features = ["bytemuck"] }
image = { version = "*", default-features = false, features = ["png"] }
log = "*"
pollster = "*"
wgpu = "*"
winit = "*"
