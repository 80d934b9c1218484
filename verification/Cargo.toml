[package]
name = "amf0"
version = "0.1.0"
edition = "2021"
publish = false

[dependencies]
byteorder = "1"
