[package]
name = "combustion"
version = "0.1.0"
edition = "2021"
publish = false

[dependencies]
fixedbitset = "=0.5.7"
fnv = "=1.0.7"
glfw = "*"
nalgebra = "=0.35.0"
petgraph = "=0.8.3"
serde = { version = "=1.0.229", features = ["derive"] }
