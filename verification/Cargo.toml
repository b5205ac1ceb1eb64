[package]
name = "strace_tree"
version = "0.1.0"
edition = "2021"
publish = false

[dependencies]
regex = "1"
once_cell = "1"
ansi_term = "0.12"
