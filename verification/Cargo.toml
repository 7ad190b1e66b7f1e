[package]
name = "rust_nn"
version = "0.1.0"
edition = "2021"
publish = false

[dependencies]
rand = "0.8"
ureq = "2"
pollster = "0.3"
wgpu = "0.19"
