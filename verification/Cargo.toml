[package]
name = "sovereign_gpu"
version = "0.1.0"
edition = "2021"
publish = false

[dependencies]
wgpu = "0.20"
pollster = "0.3"
bytemuck = "1"
pyo3 = "0.22"
