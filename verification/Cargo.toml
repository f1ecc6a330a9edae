[package]
name = "engineering_repr"
version = "0.1.0"
edition = "2021"
publish = false

[dependencies]
serde = "1"
num-rational = "0.4"
num-traits = "0.2"
