[package]
name = "advent2018"
version = "0.1.0"
edition = "2021"
publish = false

[dependencies]
scan_fmt = "=0.1.3"
linked-list = "=0.0.3"
