[package]
name = "sdl2_mt"
version = "0.2.0"
edition = "2021"
publish = false

[dependencies]
lazy_static = "1"
sdl2 = "*"
