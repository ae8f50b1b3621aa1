[package]
name = "cantucci"
version = "0.1.0"
edition = "2021"
publish = false

[dependencies]
cgmath = "0.18"
rayon = "1"
term-painter = "*"
log = "0.4"
env_logger = "*"
winit = "0.28"
lalrpop-util = "*"
