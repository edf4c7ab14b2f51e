[package]
name = "sudoku_solver"
version = "0.1.0"
edition = "2021"
publish = false

[dependencies]
indicatif = { version = "=0.18.6", features = ["rayon"] }
rayon = "=1.12.0"
