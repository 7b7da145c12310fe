[package]
name = "showfs"
version = "0.1.0"
edition = "2021"
publish = false

[dependencies]
env_logger = "*"
fuse = "0.3"
libarchive3-sys = "*"
libc = "*"
log = "*"
time = "0.1"
