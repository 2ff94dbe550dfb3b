[package]
name = "thumbnailer"
version = "0.1.0"
edition = "2021"
publish = false

[dependencies]
md5 = "*"
hex = "*"
image = { version = "*", default-features = false, features = ["png", "jpeg"] }
walkdir = "*"
