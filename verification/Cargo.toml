[package]
name = "spyglass"
version = "0.1.0"
edition = "2021"
publish = false

[dependencies]
libc = "0.2"
time = "0.3"
log = "0.4"
env_logger = "*"
