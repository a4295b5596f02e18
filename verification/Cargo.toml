[package]
name = "mandelbrot"
version = "0.1.0"
edition = "2021"
publish = false

[dependencies]
bytemuck = { version = "1", features = ["derive"] }
env_logger = "0.9"
fnv = "1"
log = "0.4"
num_cpus = "1"
pollster = "0.2"
rayon = "1"
wgpu = "0.14"
winit = "0.27"
