[package]
name = "tagtree"
version = "0.1.0"
edition = "2021"
publish = false

[dependencies]
xml-rs = "*"
env_logger = "*"
