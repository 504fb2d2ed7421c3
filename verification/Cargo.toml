[package]
name = "eight_puzzle_core"
version = "0.1.0"
edition = "2021"
publish = false

[dependencies]
rand = "0.8"
find_folder = "*"
piston_window = "*"

[dev-dependencies]
permutator = "*"
