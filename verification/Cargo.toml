[package]
name = "branch_and_bound"
version = "0.1.0"
edition = "2021"
publish = false

[dependencies]
binary-heap-plus = "0.5"
compare = "0.1"
