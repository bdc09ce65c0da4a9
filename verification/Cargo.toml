[package]
name = "hex_softbody"
version = "0.1.0"
edition = "2021"
publish = false

[dependencies]
image = { version = "0.24", default-features = false }
imageproc = { version = "0.23", default-features = false }
macroquad = { version = "0.3", default-features = false }
