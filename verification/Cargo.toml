[package]
name = "freedesktop_sound"
version = "0.1.0"
edition = "2021"
publish = false

[dependencies]
ini_core = "*"
xdg = "2"
