[package]
name = "finder"
version = "0.1.0"
edition = "2021"
publish = false

[dependencies]
walkdir = "2"
fuzzy-matcher = "0.3"
crossterm = "0.28"
