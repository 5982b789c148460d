[package]
name = "firewheel"
version = "0.1.0"
edition = "2021"
publish = false

[dependencies]
thunderdome = "=0.6.1"
ahash = "=0.8.12"
smallvec = "=1.16.4"
arrayvec = "=0.7.8"
