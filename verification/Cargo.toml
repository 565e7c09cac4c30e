[package]
name = "nanoos"
version = "0.1.0"
edition = "2021"
publish = false

[dependencies]
multiboot2 = "=0.28.0"
spin = "=0.12.3"
