[package]
name = "dockerfile_parser"
version = "0.1.0"
edition = "2021"
publish = false

[dependencies]
rowan = "0.16"
text-size = "1.1"
