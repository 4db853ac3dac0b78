[package]
name = "image_debug_utils"
version = "0.1.0"
edition = "2021"
publish = false

[dependencies]
imageproc = "*"
image = "*"
