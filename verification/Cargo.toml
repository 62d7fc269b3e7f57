[package]
name = "ruzero"
version = "0.1.0"
edition = "2021"
publish = false

[dependencies]
ndarray = "0.15"
