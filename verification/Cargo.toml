[package]
name = "pod-eigs"
version = "0.1.0"
edition = "2021"
publish = false

[dependencies]
nalgebra = "*"
num-complex = "*"
serde_json = "1"
