[package]
name = "sdg"
version = "0.1.0"
edition = "2021"
publish = false

[dependencies]
lilypads = "*"
vec_mem_heap = "*"
glam = "*"
bytemuck = "*"
