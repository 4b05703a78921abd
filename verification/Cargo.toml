[package]
name = "circle_fold"
version = "0.1.0"
edition = "2021"
publish = false

[dependencies]
p3-field = "*"
p3-mersenne-31 = "*"
