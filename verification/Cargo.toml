[package]
name = "orgize"
version = "0.1.0"
edition = "2021"
publish = false

[dependencies]
memchr = "2"
indextree = "*"
serde = "*"
serde_indextree = "*"
