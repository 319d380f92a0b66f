[package]
name = "compression"
version = "0.1.0"
edition = "2021"
publish = false

[dependencies]
bitreader = "=0.3.11"
