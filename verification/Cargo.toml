[package]
name = "pms"
version = "0.1.0"
edition = "2021"
publish = false

[dependencies]
image = "*"
unicode-segmentation = "*"
tantivy = "*"
leptess = "*"
chrono = "*"
walkdir = "*"
glob = "*"
