[package]
name = "render"
version = "0.1.0"
edition = "2021"
publish = false

[dependencies]
clap = { version = "4", features = ["derive"] }
nom = "7"
raylib = "*"
tobj = "4"
ultraviolet = "0.9"
wide = "0.7"
