[package]
name = "drop_dupe"
version = "0.1.0"
edition = "2021"
publish = false

[dependencies]
clap = "*"
dssim-core = "*"
image = "*"
imgref = "*"
rgb = "*"
