[package]
name = "img-parts"
version = "0.4.0"
edition = "2021"
publish = false

[dependencies]
bytes = "1"
byteorder = "1"
crc32fast = "1"
miniz_oxide = "0.8"
