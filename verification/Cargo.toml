[package]
name = "numsep"
version = "0.1.0"
edition = "2021"
publish = false

[dependencies]
slicestring = "=0.1.3"
