[package]
name = "intcode"
version = "0.1.0"
edition = "2021"
publish = false

[dependencies]
indextree = "=4.9.2"
permutator = "=0.3.3"
