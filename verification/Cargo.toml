[package]
name = "tetris_graphics"
version = "0.1.0"
edition = "2021"
publish = false

[dependencies]
fontdue = "0.7"
glow = "0.11"
glutin = "0.29"
image = "0.24"

[dev-dependencies]
rand = "0.8"
