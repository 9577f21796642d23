[package]
name = "rchem"
version = "0.1.0"
edition = "2021"
publish = false

[dependencies]
boys = "*"
factorial = "*"
num-integer = "*"
