[package]
name = "waifu2x"
version = "0.1.0"
edition = "2021"
publish = false

[dependencies]
getopts = "0.2"
image = { version = "*", default-features = false, features = ["bmp", "gif", "jpeg", "png", "webp"] }
rustc-serialize = "0.3"
time = "0.1"
