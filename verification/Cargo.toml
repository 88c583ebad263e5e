[package]
name = "mundo_voxel"
version = "0.1.0"
edition = "2021"
publish = false

[dependencies]
cgmath = "*"
gl = "*"
noise = "*"
sdl2 = "*"
stb_image = "*"
