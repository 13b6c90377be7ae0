[package]
name = "mfxvnc"
version = "0.1.0"
edition = "2021"
publish = false

[dependencies]
miniz_oxide = "0.8"
rand = "0.8"
libc = "0.2"
scrap = "*"
