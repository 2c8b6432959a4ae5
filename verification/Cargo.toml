[package]
name = "dodriodiff"
version = "0.1.0"
edition = "2021"
publish = false

[dependencies]
fxhash = "0.2"
generational-arena = "0.2"
longest-increasing-subsequence = "0.1"
