[package]
name = "highlighter"
version = "0.1.0"
edition = "2021"
publish = false

[dependencies]
tree-sitter = "0.25"
ropey = "*"
sysinfo = "*"
tree-sitter-json = "*"
