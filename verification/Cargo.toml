[package]
name = "engine"
version = "0.1.0"
edition = "2021"
publish = false

[dependencies]
glam = "*"
winit = "0.30"
log = "0.4"
env_logger = "*"
kira = "0.9"
