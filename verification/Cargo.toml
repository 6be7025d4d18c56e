[package]
name = "ecs_core"
version = "0.1.0"
edition = "2021"
publish = false

[dependencies]
anyhow = "1"
bytemuck = { version = "1", features = ["derive"] }
glam = "0.30"
image = { version = "0.25", default-features = false, features = ["png"] }
noise = "0.9"
pollster = "0.4"
ron = "0.10"
serde = { version = "1", features = ["derive"] }
walkdir = "2"
wgpu = "26"
winit = "0.30"
