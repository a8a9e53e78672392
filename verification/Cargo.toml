[package]
name = "recursive_split"
version = "0.1.0"
edition = "2021"
publish = false

[dependencies]
tiktoken-rs = "*"
tokenizers = "*"
pyo3 = "*"
