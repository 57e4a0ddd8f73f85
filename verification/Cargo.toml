[package]
name = "crates_io_cli"
version = "0.1.0"
edition = "2021"
publish = false

[dependencies]
sled = "*"
humantime = "*"
unicode-segmentation = "*"
