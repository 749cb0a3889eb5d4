[package]
name = "typst-diff"
version = "0.1.0"
edition = "2021"
publish = false

[dependencies]
typst = "0.11"
comemo = "0.4"
ecow = "0.2"
