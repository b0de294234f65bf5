[package]
name = "sudoku_engine"
version = "0.1.0"
edition = "2021"
publish = false

[dependencies]
sudoku = "0.8"
dioxus = { version = "0.5", features = ["web"] }
dioxus-web = "0.5"
dioxus-logger = "0.4"
log = "0.4"
