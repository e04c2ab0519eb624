[package]
name = "dls"
version = "0.1.0"
edition = "2021"
publish = false

[dependencies]
ast-grep-core = "*"
ast-grep-language = "*"
node-resolve = "*"
