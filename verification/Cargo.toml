[package]
name = "stabel"
version = "0.1.0"
edition = "2021"
publish = false

[dependencies]
snailquote = "*"
termsize = "*"
