[package]
name = "rust_exercises"
version = "0.1.0"
edition = "2021"

[dependencies]
ordered-float = "*"
