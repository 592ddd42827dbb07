[package]
name = "daily_puzzles"
version = "0.1.0"
edition = "2021"
publish = false

[dependencies]
ndarray = "*"
