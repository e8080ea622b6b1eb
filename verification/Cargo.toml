[package]
name = "sudoku_rs"
version = "0.1.0"
edition = "2021"
publish = false

[dependencies]
rand = "0.7"
serde_json = "1"
structopt = "0.3"
