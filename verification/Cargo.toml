[package]
name = "marble_puzzles"
version = "0.1.0"
edition = "2021"

[dependencies]
regex = "1"
bit-vec = "0.6"
