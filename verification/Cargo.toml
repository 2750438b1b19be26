[package]
name = "ironscribe"
version = "0.1.0"
edition = "2021"
publish = false

[dependencies]
sha2 = "*"
adler32 = "*"
