[package]
name = "nox"
version = "0.1.0"
edition = "2021"
publish = false

[dependencies]
serde = { version = "1", features = ["derive"] }
bytemuck = "1"
cgmath = "0.18"
bracket-geometry = "0.8"
winit = "0.28"
rayon = "1"
parking_lot = "0.12"
lazy_static = "1"
legion = { version = "0.4", default-features = false, features = ["codegen"] }
