[package]
name = "codemap"
version = "0.1.0"
edition = "2021"
publish = false

[dependencies]
memchr = "2"
jwalk = "0.8"
rayon = "1"
png = "*"
pollster = "*"
bytemuck = { version = "1", features = ["derive"] }
winit = "0.30"
wgpu = "*"
glyphon = "*"
