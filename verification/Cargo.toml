[package]
name = "tactics"
version = "0.1.0"
edition = "2021"
publish = false

[dependencies]
rand = "=0.8.8"
ndarray = "=0.15.6"
csv = "=1.4.0"
