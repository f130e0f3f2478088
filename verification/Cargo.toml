[package]
name = "wgpu_nnd"
version = "0.1.0"
edition = "2021"
publish = false

[dependencies]
bytemuck = "1"
bytemuck_derive = "1"
env_logger = "0.11"
flume = "0.11"
log = "0.4"
ndarray = "0.16"
ndarray-npy = "0.9"
pollster = "0.4"
wgpu = "24"
