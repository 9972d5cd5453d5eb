[package]
name = "shader_binding"
version = "0.1.0"
edition = "2021"
publish = false

[dependencies]
ash = "=0.31.0"
collada = "=0.17.0"
image = "=0.23.14"
nalgebra = "0.32"
shaderc = "=0.10.1"
spirv_cross = { version = "=0.16.0", features = ["glsl"] }
winit = "=0.19.5"
