[package]
name = "imagebox"
version = "0.1.0"
edition = "2021"
publish = false

[dependencies]
image = { version = "*", default-features = false, features = ["png", "jpeg"] }
imageproc = "*"
ab_glyph = "*"
rand = "*"
glob = "*"
serde = { version = "*", features = ["derive"] }
serde_json = "*"
serde_yaml = "*"
