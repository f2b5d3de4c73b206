[package]
name = "pathtracer"
version = "0.1.0"
edition = "2021"
publish = false

[dependencies]
anyhow = "=1.0.104"
bytemuck = { version = "=1.25.2", features = ["derive"] }
cgmath = "=0.18.0"
gltf = "=1.4.1"
log = "=0.4.35"
pollster = "=0.4.0"
wesl = "=0.2.0"
wgpu = "=30.0.1"
winit = "=0.30.13"
