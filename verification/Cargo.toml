[package]
name = "gtk-rlottie"
version = "0.1.0"
edition = "2021"
publish = false

[dependencies]
flate2 = "1"
gtk4 = "*"
glib = "*"
rlottie = "*"
async-channel = "*"
