[package]
name = "renumber"
version = "0.1.0"
edition = "2021"
publish = false

[dependencies]
memchr = "2"
bytemuck = "1"
tiny-skia-path = "0.11"
no_std_io = { version = "0.6", features = ["std"] }
