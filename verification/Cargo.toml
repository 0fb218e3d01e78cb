[package]
name = "sane"
version = "0.1.0"
edition = "2021"
publish = false

[dependencies]
arrayvec = { version = "0.7", default-features = false }
bitflags = "2"
spin = "0.9"
