[package]
name = "cardlib"
version = "0.1.0"
edition = "2021"
publish = false

[dependencies]
combinations = "*"
thiserror = "1"
