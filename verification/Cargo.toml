[package]
name = "zerobrew"
version = "0.1.0"
edition = "2021"

[dependencies]
console = "*"
