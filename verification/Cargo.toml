[package]
name = "rustlab"
version = "0.1.0"
edition = "2021"
publish = false

[dependencies]
hex = "0.4"
regex = "1"
libc = "0.2"
ctrlc = "3"
