[package]
name = "flash_utils"
version = "0.1.0"
edition = "2021"
publish = false

[dependencies]
core_affinity = "0.8"
libc = "0.2"
thiserror = "2"
