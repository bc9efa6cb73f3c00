[package]
name = "obfuscation"
version = "0.1.0"
edition = "2021"
publish = false

[dependencies]
glam = "*"
macroquad = { version = "*", default-features = false }
