[package]
name = "tunnel"
version = "0.1.0"
edition = "2021"
publish = false

[dependencies]
ring = "*"
socket2 = "*"
libc = "*"

[dev-dependencies]
etherparse = "*"
