[package]
name = "hooya"
version = "0.1.0"
edition = "2021"
publish = false

[dependencies]
ring = "0.17"
infer = "0.16"
rand = "0.8"
image = { version = "0.24", default-features = false, features = ["jpeg", "png", "gif"] }
kamadak-exif = "0.5"
