[package]
name = "kid3"
version = "0.1.0"
edition = "2021"
publish = false

[dependencies]
csv = "=1.4.0"
ndarray = "=0.17.2"
ndarray-csv = "=0.5.4"
rand = "=0.7.3"
