[package]
name = "nqueens"
version = "0.1.0"
edition = "2021"
publish = false

[dependencies]
itertools = "=0.15.0"
ndarray = "=0.15.6"
svg = "=0.18.0"
