[package]
name = "ostn15_phf"
version = "0.1.0"
edition = "2021"
publish = false

[dependencies]
phf = "*"
phf_shared = "*"
phf_generator = "*"
libc = "*"
lzma-rust2 = "*"
