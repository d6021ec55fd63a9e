[package]
name = "zone_image"
version = "0.1.0"
edition = "2021"
publish = false

[dependencies]
anyhow = "*"
flate2 = "*"
getopts = "*"
libc = "*"
tar = "*"
tempfile = "*"
walkdir = "*"
