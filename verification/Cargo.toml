[package]
name = "general_simplex"
version = "0.1.0"
edition = "2021"
publish = false

[dependencies]
rand = "0.8"
tree-sitter = "0.25"
