[package]
name = "llama_tensor"
version = "0.1.0"
edition = "2021"
publish = false

[dependencies]
ggus = "=0.5.1"
ndarray-layout = "=0.2.2"
