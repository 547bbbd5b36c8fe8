[package]
name = "pricefetch"
version = "0.1.0"
edition = "2021"
publish = false

[dependencies]
parity-scale-codec = "=3.7.5"
simple_json = "*"
