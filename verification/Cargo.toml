[package]
name = "slide2048"
version = "0.1.0"
edition = "2021"
publish = false

[dependencies]
itertools = "0.10"
rand = "0.8"
tui = "0.19"
crossterm = "0.25"
