[package]
name = "wordle_rs"
version = "0.1.0"
edition = "2021"
publish = false

[dependencies]
itertools = "0.10"
once_cell = "1"
