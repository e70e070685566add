[package]
name = "metamorph"
version = "0.1.0"
edition = "2021"
publish = false

[dependencies]
groestl = "*"
zbase32 = "*"
hex = "*"
tempfile = "*"
clap = "*"
chrono = "*"
