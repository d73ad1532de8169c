[package]
name = "comprexor"
version = "0.1.0"
edition = "2021"
publish = false

[dependencies]
flate2 = "*"
humansize = "*"
rand = "0.8"
tar = "*"
