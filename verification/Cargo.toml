[package]
name = "camera_dewarp"
version = "0.1.0"
edition = "2021"
publish = false

[dependencies]
bytemuck = { version = "=1.25.2", features = ["extern_crate_alloc"] }
clap = { version = "4", features = ["derive"] }
crossbeam-channel = "0.5"
eframe = { version = "=0.34.3", default-features = false, features = ["default_fonts", "glow", "x11"] }
env_logger = "0.11"
image = { version = "=0.25.10", default-features = false, features = ["jpeg", "png", "tiff", "bmp", "webp"] }
log = "0.4"
pollster = "0.4"
rayon = "=1.12.0"
regex = "=1.13.1"
rfd = { version = "=0.17.2", default-features = false, features = ["xdg-portal"] }
wgpu = { version = "=27.0.1", default-features = false, features = ["std", "wgsl", "vulkan", "dx12"] }
