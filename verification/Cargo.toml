[package]
name = "starlark"
version = "0.1.0"
edition = "2021"
publish = false

[dependencies]
regex-syntax = "0.8"

[dev-dependencies]
textwrap = "0.16"
