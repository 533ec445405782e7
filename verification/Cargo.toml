[package]
name = "spark"
version = "0.1.0"
edition = "2021"
publish = false

[dependencies]
hecs = "0.10"
glam = { version = "0.30", features = ["serde", "bytemuck"] }
serde = { version = "1", features = ["derive"] }
ron = "0.9"
anyhow = "1"
log = "0.4"
env_logger = "0.11"
bytemuck = { version = "1.23", features = ["derive"] }
image = { version = "0.25", default-features = false, features = ["png", "jpeg", "hdr"] }
notify = "8"
gltf = "1"
rapier2d = "0.19"
rapier3d = "0.19"
winit = { version = "0.30", default-features = false, features = ["rwh_06", "x11"] }
wgpu = "27"
pollster = "0.4"
egui = "0.33"
egui-wgpu = { version = "0.33", default-features = false }
egui-winit = { version = "0.33", default-features = false }
