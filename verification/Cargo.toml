[package]
name = "mcrs"
version = "0.1.0"
edition = "2021"
publish = false

[dependencies]
indexmap = "*"
libnoise = "*"
rapier3d = "*"
rayon = "*"
priomutex = "*"
glam = "*"
