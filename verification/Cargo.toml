[package]
name = "brush_render"
version = "0.1.0"
edition = "2021"
publish = false

[dependencies]
rand = "0.9"
glam = "0.30"
ball-tree = "0.5"
