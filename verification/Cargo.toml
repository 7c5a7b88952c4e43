[package]
name = "wgpu_mc"
version = "0.1.0"
edition = "2021"
publish = false

[dependencies]
wgpu = "*"
glam = "*"
bytemuck = "*"
parking_lot = "*"
