[package]
name = "l3x_ide"
version = "0.1.0"
edition = "2021"
publish = false

[dependencies]
csv = "*"
