[package]
name = "legato"
version = "0.1.0"
edition = "2021"
publish = false

[dependencies]
hound = "*"
arc-swap = "*"
assert_no_alloc = "*"
