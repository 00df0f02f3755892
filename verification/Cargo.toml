[package]
name = "robin"
version = "0.1.0"
edition = "2021"
publish = false

[dependencies]
url = "2"
ureq = "2"
fontdue = "0.9"
image = { version = "0.25", default-features = false, features = ["png"] }
minifb = "0.27"
