[package]
name = "elastic_parser"
version = "0.1.0"
edition = "2021"
publish = false

[dependencies]
slice-deque = "0.3"
tinyvec = "*"
