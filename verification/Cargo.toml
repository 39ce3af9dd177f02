[package]
name = "codemap_rs"
version = "0.1.0"
edition = "2021"
publish = false

[dependencies]
chrono = "0.4"
ignore = "0.4"
walkdir = "2"
