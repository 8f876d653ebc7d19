[package]
name = "kaitai"
version = "0.1.0"
edition = "2021"
publish = false

[dependencies]
flate2 = "*"
encoding = "*"
cp437 = "*"
unicode-segmentation = "*"
