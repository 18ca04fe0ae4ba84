[package]
name = "hdma_gradient"
version = "1.0.0"
edition = "2021"
publish = false

[dependencies]
clap = "2"
image = "0.24"
