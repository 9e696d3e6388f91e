[package]
name = "close_fds"
version = "0.3.2"
edition = "2021"
publish = false

[dependencies]
cfg-if = "1.0"
libc = { version = "0.2", default-features = false }
