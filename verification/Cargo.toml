[package]
name = "buf_file"
version = "0.1.0"
edition = "2021"
publish = false

[dependencies]
lru-cache = "*"
