[package]
name = "quantum"
version = "0.1.0"
edition = "2021"
publish = false

[dependencies]
faer = "=0.22.6"
nalgebra = "=0.35.0"
ndarray = "=0.17.2"
num = "=0.4.3"
