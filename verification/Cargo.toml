[package]
name = "raster3d"
version = "0.1.0"
edition = "2021"
publish = false

[dependencies]
pixels = "0.13"
winit = "0.28"
