[package]
name = "fatass"
version = "0.1.0"
edition = "2021"
publish = false

[dependencies]
colored = "*"
indicatif = "*"
tabled = "*"
walkdir = "*"
