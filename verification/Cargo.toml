[package]
name = "pixelsort"
version = "0.1.0"
edition = "2021"
publish = false

[dependencies]
rand = "0.8"
rayon = "1"
image = { version = "0.24", default-features = false, features = ["png", "jpeg"] }
show-image = "*"
log = "0.4"
env_logger = "0.10"
wgpu = "0.17"
winit = "0.28"
bytemuck = { version = "1", features = ["derive"] }
