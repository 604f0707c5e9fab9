[package]
name = "parley"
version = "0.1.0"
edition = "2021"
publish = false

[dependencies]
core_maths = "*"
fontique = { version = "*", default-features = false }
parlance = "*"
parley_engine = "*"
