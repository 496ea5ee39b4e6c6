[package]
name = "polyglot_java"
version = "0.1.0"
edition = "2021"
publish = false

[dependencies]
tree-sitter = "=0.20.10"
tree-sitter-java = "=0.20.0"
