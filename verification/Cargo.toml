[package]
name = "bevy_mujoco"
version = "0.1.0"
edition = "2021"
publish = false

[dependencies]
trees = "=0.4.2"
itertools = "=0.12.1"
arrayvec = "=0.7.8"
serde = { version = "1", features = ["derive"] }
nalgebra = "*"
mujoco-rust = "0.0.6"
mujoco-rs-sys = "0.0.4"
