[package]
name = "selection_vector"
version = "0.1.0"
edition = "2021"
publish = false

[dependencies]
arrow-array = "*"
arrow-buffer = "*"
arrow-data = "*"
arrow-schema = "*"
