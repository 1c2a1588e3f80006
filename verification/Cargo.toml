[package]
name = "sqlite_rust"
version = "0.1.0"
edition = "2021"
publish = false

[dependencies]
byteorder = "=1.5.0"

[dev-dependencies]
text_io = "=0.1.13"
