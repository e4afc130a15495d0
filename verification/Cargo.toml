[package]
name = "registrar"
version = "0.1.0"
edition = "2021"
publish = false

[dependencies]
parity-scale-codec = "3.7.5"
sp-runtime = "*"
frame-support = "*"
