[package]
name = "sluggrs_skylines"
version = "0.1.0"
edition = "2021"
publish = false

[dependencies]
bytemuck = { version = "1", features = ["derive"] }
cosmic-text = "*"
log = "0.4"
rustc-hash = "2"
skrifa = "*"
wgpu = "*"
