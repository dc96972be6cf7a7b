[package]
name = "tidy_path"
version = "0.1.0"
edition = "2021"
publish = false

[dependencies]
dunce = "1.0"
etcetera = "0.8"
