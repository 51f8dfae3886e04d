[package]
name = "kaitai"
version = "0.1.0"
edition = "2021"
publish = false

[dependencies]
byteorder = "1"
cp437 = "*"
encoding = "0.2"
flate2 = "1"
unicode-segmentation = "1"
