[package]
name = "jumpstarter"
version = "0.1.0"
edition = "2021"
publish = false

[dependencies]
anyhow = "1"
log = "0.4"
uefi = { version = "=0.26.0", features = ["alloc"] }
uefi-services = { version = "=0.23.0", default-features = false, features = ["logger"] }
