[package]
name = "qemu_mshv"
version = "0.1.0"
edition = "2021"
publish = false

[dependencies]
anyhow = "=1.0.104"
lazy_static = "=1.5.1"
mshv-bindings = "=0.7.1"
mshv-ioctls = "=0.7.1"
vmm-sys-util = "=0.15.0"
